//! The snapshot store: generation numbering, the on-disk naming grammar,
//! collection diffing, and the token cache.

use crate::spotify::get_tokens::{clone_response, Response as Tokens, ResponseView as TokensView};
use crate::spotify::list_user_tracks::{clone_item, clone_items, Item, ItemView};
use vstd::prelude::*;
use vstd::seq_lib::group_seq_properties;

verus! {

/// True when some track in `tracks` carries the identifier `id`.
pub open spec fn has_id(tracks: Seq<ItemView>, id: Seq<char>) -> bool {
    exists|i: int| 0 <= i < tracks.len() && tracks[i].track.id == id
}

/// The set of track identifiers occurring in `tracks`.
pub open spec fn id_set(tracks: Seq<ItemView>) -> Set<Seq<char>> {
    Set::new(|id: Seq<char>| has_id(tracks, id))
}

/// The tracks of `new_tracks` whose identifier is absent from
/// `old_tracks`, in the order `new_tracks` lists them.
pub open spec fn spec_added(old_tracks: Seq<ItemView>, new_tracks: Seq<ItemView>) -> Seq<
    ItemView,
> {
    new_tracks.filter(|t: ItemView| !has_id(old_tracks, t.track.id))
}

/// The tracks of `old_tracks` whose identifier is absent from
/// `new_tracks`, in the order `old_tracks` lists them.
pub open spec fn spec_removed(old_tracks: Seq<ItemView>, new_tracks: Seq<ItemView>) -> Seq<
    ItemView,
> {
    old_tracks.filter(|t: ItemView| !has_id(new_tracks, t.track.id))
}

/// The tracks added and removed between two captures of the collection,
/// compared by stable track identifier only.
#[derive(Debug, PartialEq, Eq)]
pub struct Diff {
    /// Tracks present in the new collection but not the old one.
    pub added: Vec<Item>,
    /// Tracks present in the old collection but not the new one.
    pub removed: Vec<Item>,
}

/// Mathematical model of a [`Diff`].
pub struct DiffView {
    pub added: Seq<ItemView>,
    pub removed: Seq<ItemView>,
}

impl View for Diff {
    type V = DiffView;

    open spec fn view(&self) -> DiffView {
        DiffView { added: self.added.deep_view(), removed: self.removed.deep_view() }
    }
}

/// Reports whether any track of `tracks` carries the identifier `id`.
fn contains_id(tracks: &Vec<Item>, id: &String) -> (r: bool)
    ensures
        r == has_id(tracks.deep_view(), id@),
{
    let n = tracks.len();
    for i in 0..n
        invariant
            n == tracks.len(),
            forall|k: int| 0 <= k < i ==> tracks.deep_view()[k].track.id != id@,
    {
        if tracks[i].track.id == *id {
            assert(tracks.deep_view()[i as int].track.id == id@);
            return true;
        }
    }
    false
}

impl Diff {
    /// Computes the symmetric difference of two collections by track
    /// identifier: `added` keeps the order of `new_tracks`, `removed` the
    /// order of `old_tracks`; tracks present in both, by identifier, land
    /// in neither.
    pub fn calculate(old_tracks: &Vec<Item>, new_tracks: &Vec<Item>) -> (d: Diff)
        ensures
            d.added.deep_view() == spec_added(old_tracks.deep_view(), new_tracks.deep_view()),
            d.removed.deep_view() == spec_removed(old_tracks.deep_view(), new_tracks.deep_view()),
    {
        broadcast use group_seq_properties;

        let ghost old_v = old_tracks.deep_view();
        let ghost new_v = new_tracks.deep_view();
        let mut added: Vec<Item> = Vec::new();
        let n = new_tracks.len();
        assert(new_v.take(0) =~= Seq::<ItemView>::empty());
        for i in 0..n
            invariant
                n == new_tracks.len(),
                old_v == old_tracks.deep_view(),
                new_v == new_tracks.deep_view(),
                added.deep_view() =~= new_v.take(i as int).filter(
                    |t: ItemView| !has_id(old_v, t.track.id),
                ),
        {
            let ghost prefix = new_v.take(i as int);
            let ghost pre_added = added.deep_view();
            if !contains_id(old_tracks, &new_tracks[i].track.id) {
                added.push(clone_item(&new_tracks[i]));
                proof {
                    assert(added.deep_view() =~= pre_added.push(new_v[i as int]));
                }
            }
            proof {
                let pred = |t: ItemView| !has_id(old_v, t.track.id);
                prefix.lemma_filter_push(new_v[i as int], pred);
                assert(new_v.take(i + 1) =~= prefix.push(new_v[i as int]));
            }
        }
        assert(new_v.take(n as int) =~= new_v);

        let mut removed: Vec<Item> = Vec::new();
        let m = old_tracks.len();
        assert(old_v.take(0) =~= Seq::<ItemView>::empty());
        for i in 0..m
            invariant
                m == old_tracks.len(),
                old_v == old_tracks.deep_view(),
                new_v == new_tracks.deep_view(),
                removed.deep_view() =~= old_v.take(i as int).filter(
                    |t: ItemView| !has_id(new_v, t.track.id),
                ),
        {
            let ghost prefix = old_v.take(i as int);
            let ghost pre_removed = removed.deep_view();
            if !contains_id(new_tracks, &old_tracks[i].track.id) {
                removed.push(clone_item(&old_tracks[i]));
                proof {
                    assert(removed.deep_view() =~= pre_removed.push(old_v[i as int]));
                }
            }
            proof {
                let pred = |t: ItemView| !has_id(new_v, t.track.id);
                prefix.lemma_filter_push(old_v[i as int], pred);
                assert(old_v.take(i + 1) =~= prefix.push(old_v[i as int]));
            }
        }
        assert(old_v.take(m as int) =~= old_v);

        Diff { added, removed }
    }
}

/// A filter keeps nothing when its predicate holds of no element.
proof fn lemma_filter_none<A>(s: Seq<A>, pred: spec_fn(A) -> bool)
    requires
        forall|i: int| 0 <= i < s.len() ==> !pred(s[i]),
    ensures
        s.filter(pred) == Seq::<A>::empty(),
    decreases s.len(),
{
    reveal(Seq::filter);
    if s.len() > 0 {
        lemma_filter_none(s.drop_last(), pred);
    }
    assert(s.filter(pred) =~= Seq::<A>::empty());
}

/// An identifier occurs in a filtered collection exactly when some track
/// kept by the filter carries it.
proof fn lemma_has_id_filter(s: Seq<ItemView>, pred: spec_fn(ItemView) -> bool, x: Seq<char>)
    ensures
        has_id(s.filter(pred), x) <==> exists|i: int|
            0 <= i < s.len() && pred(s[i]) && s[i].track.id == x,
    decreases s.len(),
{
    reveal(Seq::filter);
    if s.len() > 0 {
        lemma_has_id_filter(s.drop_last(), pred, x);
        let f = s.filter(pred);
        let fd = s.drop_last().filter(pred);
        if has_id(f, x) {
            let j = choose|j: int| 0 <= j < f.len() && f[j].track.id == x;
            if pred(s.last()) && j == f.len() - 1 {
                assert(pred(s[s.len() - 1]) && s[s.len() - 1].track.id == x);
            } else {
                assert(0 <= j < fd.len() && fd[j].track.id == x);
                let i = choose|i: int|
                    0 <= i < s.drop_last().len() && pred(s.drop_last()[i]) && s.drop_last()[i].track.id
                        == x;
                assert(pred(s[i]) && s[i].track.id == x);
            }
        }
        if exists|i: int| 0 <= i < s.len() && pred(s[i]) && s[i].track.id == x {
            let i = choose|i: int| 0 <= i < s.len() && pred(s[i]) && s[i].track.id == x;
            if i == s.len() - 1 {
                assert(f[f.len() - 1].track.id == x);
            } else {
                assert(pred(s.drop_last()[i]) && s.drop_last()[i].track.id == x);
                let j = choose|j: int| 0 <= j < fd.len() && fd[j].track.id == x;
                assert(f[j].track.id == x);
            }
        }
    }
}

/// Diffing a collection against itself yields an empty diff: nothing is
/// added and nothing is removed.
pub proof fn lemma_diff_self_empty(a: Seq<ItemView>)
    ensures
        spec_added(a, a) == Seq::<ItemView>::empty(),
        spec_removed(a, a) == Seq::<ItemView>::empty(),
{
    let pred = |t: ItemView| !has_id(a, t.track.id);
    assert forall|i: int| 0 <= i < a.len() implies !pred(a[i]) by {
        assert(a[i].track.id == a[i].track.id);
    }
    lemma_filter_none(a, pred);
}

/// The identifiers of `added` and `removed` are disjoint from each other
/// and from the common identifiers, and the three sets together are
/// exactly the identifiers of the two collections combined.
pub proof fn lemma_diff_partition(a: Seq<ItemView>, b: Seq<ItemView>)
    ensures
        id_set(spec_added(a, b)).intersect(id_set(spec_removed(a, b))) == Set::<Seq<char>>::empty(),
        id_set(spec_added(a, b)).intersect(id_set(a).intersect(id_set(b))) == Set::<
            Seq<char>,
        >::empty(),
        id_set(spec_removed(a, b)).intersect(id_set(a).intersect(id_set(b))) == Set::<
            Seq<char>,
        >::empty(),
        id_set(spec_added(a, b)).union(id_set(spec_removed(a, b))).union(
            id_set(a).intersect(id_set(b)),
        ) == id_set(a).union(id_set(b)),
{
    let added_pred = |t: ItemView| !has_id(a, t.track.id);
    let removed_pred = |t: ItemView| !has_id(b, t.track.id);
    assert forall|x: Seq<char>|
        #[trigger] id_set(spec_added(a, b)).contains(x) <==> has_id(b, x) && !has_id(a, x) by {
        lemma_has_id_filter(b, added_pred, x);
        if has_id(b, x) && !has_id(a, x) {
            let i = choose|i: int| 0 <= i < b.len() && b[i].track.id == x;
            assert(added_pred(b[i]));
        }
    }
    assert forall|x: Seq<char>|
        #[trigger] id_set(spec_removed(a, b)).contains(x) <==> has_id(a, x) && !has_id(b, x) by {
        lemma_has_id_filter(a, removed_pred, x);
        if has_id(a, x) && !has_id(b, x) {
            let i = choose|i: int| 0 <= i < a.len() && a[i].track.id == x;
            assert(removed_pred(a[i]));
        }
    }
    assert(id_set(spec_added(a, b)).intersect(id_set(spec_removed(a, b))) =~= Set::<
        Seq<char>,
    >::empty());
    assert(id_set(spec_added(a, b)).intersect(id_set(a).intersect(id_set(b))) =~= Set::<
        Seq<char>,
    >::empty());
    assert(id_set(spec_removed(a, b)).intersect(id_set(a).intersect(id_set(b))) =~= Set::<
        Seq<char>,
    >::empty());
    assert(id_set(spec_added(a, b)).union(id_set(spec_removed(a, b))).union(
        id_set(a).intersect(id_set(b)),
    ) =~= id_set(a).union(id_set(b)));
}

/// The character for the decimal digit `d`.
pub open spec fn spec_digit(d: int) -> char {
    if d == 0 {
        '0'
    } else if d == 1 {
        '1'
    } else if d == 2 {
        '2'
    } else if d == 3 {
        '3'
    } else if d == 4 {
        '4'
    } else if d == 5 {
        '5'
    } else if d == 6 {
        '6'
    } else if d == 7 {
        '7'
    } else if d == 8 {
        '8'
    } else {
        '9'
    }
}

/// The decimal digits of `n`, most significant first, without leading
/// zeros.
pub open spec fn spec_digits(n: nat) -> Seq<char>
    decreases n,
{
    if n < 10 {
        seq![spec_digit(n as int)]
    } else {
        spec_digits(n / 10).push(spec_digit((n % 10) as int))
    }
}

/// How many `'0'` characters pad the digits of `g` to width 6.
pub open spec fn spec_pad_len(g: nat) -> nat {
    if spec_digits(g).len() >= 6 {
        0
    } else {
        (6 - spec_digits(g).len()) as nat
    }
}

/// The name of the directory that holds generation `g`: `snapshot-`
/// followed by the decimal digits of `g`, zero-padded to width 6.
pub open spec fn spec_snapshot_dir_name(g: nat) -> Seq<char> {
    "snapshot-"@ + Seq::new(spec_pad_len(g), |i: int| '0') + spec_digits(g)
}

/// True when `c` is a decimal digit character.
pub open spec fn is_decimal_digit(c: char) -> bool {
    48 <= c as u32 <= 57
}

/// The value of the digit character `c`.
pub open spec fn digit_val(c: char) -> int {
    c as u32 - 48
}

/// The number that the digit characters of `s` spell out, most
/// significant first.
pub open spec fn digits_val(s: Seq<char>) -> int
    decreases s.len(),
{
    if s.len() == 0 {
        0
    } else {
        digits_val(s.drop_last()) * 10 + digit_val(s.last())
    }
}

/// The generation encoded in a directory name, if the name conforms to
/// the snapshot naming grammar: `snapshot-` followed by at least six
/// decimal digits whose value fits in a `u64`.
pub open spec fn spec_extract_generation(name: Seq<char>) -> Option<u64> {
    if name.len() >= 15 && name.take(9) == "snapshot-"@ && (forall|i: int|
        9 <= i < name.len() ==> is_decimal_digit(#[trigger] name[i])) && digits_val(name.skip(9))
        <= u64::MAX as int {
        Some(digits_val(name.skip(9)) as u64)
    } else {
        None
    }
}

/// A digit string names a non-negative number.
proof fn lemma_digits_val_nonneg(s: Seq<char>)
    requires
        forall|i: int| 0 <= i < s.len() ==> is_decimal_digit(#[trigger] s[i]),
    ensures
        digits_val(s) >= 0,
    decreases s.len(),
{
    if s.len() > 0 {
        lemma_digits_val_nonneg(s.drop_last());
    }
}

/// Extending a digit string to the right never lowers its value.
proof fn lemma_digits_val_prefix(s: Seq<char>, k: int)
    requires
        0 <= k <= s.len(),
        forall|i: int| 0 <= i < s.len() ==> is_decimal_digit(#[trigger] s[i]),
    ensures
        digits_val(s) >= digits_val(s.take(k)),
    decreases s.len() - k,
{
    if k < s.len() {
        lemma_digits_val_prefix(s, k + 1);
        assert(s.take(k + 1).drop_last() =~= s.take(k));
        assert(forall|i: int| 0 <= i < k ==> is_decimal_digit(#[trigger] s.take(k)[i]));
        lemma_digits_val_nonneg(s.take(k));
        assert(digits_val(s.take(k + 1)) == digits_val(s.take(k)) * 10 + digit_val(s[k]));
    } else {
        assert(s.take(k) =~= s);
    }
}

/// The one-character string for the digit `d`.
fn digit_str(d: u64) -> (r: &'static str)
    requires
        d < 10,
    ensures
        r@ == seq![spec_digit(d as int)],
{
    proof {
        reveal_strlit("0");
        reveal_strlit("1");
        reveal_strlit("2");
        reveal_strlit("3");
        reveal_strlit("4");
        reveal_strlit("5");
        reveal_strlit("6");
        reveal_strlit("7");
        reveal_strlit("8");
        reveal_strlit("9");
    }
    let r = if d == 0 {
        "0"
    } else if d == 1 {
        "1"
    } else if d == 2 {
        "2"
    } else if d == 3 {
        "3"
    } else if d == 4 {
        "4"
    } else if d == 5 {
        "5"
    } else if d == 6 {
        "6"
    } else if d == 7 {
        "7"
    } else if d == 8 {
        "8"
    } else {
        "9"
    };
    assert(r@ =~= seq![spec_digit(d as int)]);
    r
}

/// Writes `n` in decimal, most significant digit first.
fn digits_string(n: u64) -> (r: String)
    ensures
        r@ == spec_digits(n as nat),
    decreases n,
{
    if n < 10 {
        let mut s = String::new();
        s.append(digit_str(n));
        assert(s@ =~= seq![spec_digit(n as int)]);
        s
    } else {
        let mut s = digits_string(n / 10);
        s.append(digit_str(n % 10));
        assert((n as nat) / 10 == (n / 10) as nat);
        assert(s@ =~= spec_digits((n as nat) / 10).push(spec_digit((n % 10) as int)));
        s
    }
}

/// Formats the directory name that holds generation `snapshot`:
/// `snapshot-` followed by the generation, zero-padded to width 6.
pub fn snapshot_dir_name(snapshot: u64) -> (r: String)
    ensures
        r@ == spec_snapshot_dir_name(snapshot as nat),
{
    let digits = digits_string(snapshot);
    let dlen = digits.as_str().unicode_len();
    let mut name = String::new();
    name.append("snapshot-");
    let mut pad: usize = dlen;
    while pad < 6
        invariant
            dlen == spec_digits(snapshot as nat).len(),
            dlen <= pad,
            pad <= 6 || pad == dlen,
            name@ =~= "snapshot-"@ + Seq::new((pad - dlen) as nat, |i: int| '0'),
        decreases 6 - pad,
    {
        name.append("0");
        proof {
            reveal_strlit("0");
            assert(name@ =~= "snapshot-"@ + Seq::new((pad + 1 - dlen) as nat, |i: int| '0'));
        }
        pad = pad + 1;
    }
    name.append(digits.as_str());
    assert(name@ =~= spec_snapshot_dir_name(snapshot as nat));
    name
}

/// Turns a digit character into its value.
fn char_to_digit(c: char) -> (d: u64)
    requires
        is_decimal_digit(c),
    ensures
        d as int == digit_val(c),
        d < 10,
{
    ((c as u32) - 48) as u64
}

/// Reads the generation number out of a snapshot directory name.
/// Returns `None` for any name that does not conform to the naming
/// grammar, so that stray entries in the output directory are skipped
/// rather than failing the scan.
pub fn extract_snapshot_dir_number(name: &str) -> (r: Option<u64>)
    ensures
        r == spec_extract_generation(name@),
{
    let len = name.unicode_len();
    if len < 15 {
        return None;
    }
    for i in 0..9
        invariant
            len == name@.len(),
            len >= 15,
            forall|k: int| 0 <= k < i ==> name@[k] == "snapshot-"@[k],
    {
        let prefix = "snapshot-";
        proof {
            reveal_strlit("snapshot-");
        }
        if name.get_char(i) != prefix.get_char(i) {
            proof {
                assert(name@.take(9)[i as int] != "snapshot-"@[i as int]);
            }
            return None;
        }
    }
    proof {
        reveal_strlit("snapshot-");
    }
    assert(name@.take(9) =~= "snapshot-"@);

    let mut val: u64 = 0;
    let mut i: usize = 9;
    assert(name@.subrange(9, 9) =~= Seq::<char>::empty());
    while i < len
        invariant
            9 <= i <= len,
            len == name@.len(),
            len >= 15,
            name@.take(9) =~= "snapshot-"@,
            forall|k: int| 9 <= k < i ==> is_decimal_digit(#[trigger] name@[k]),
            val as int == digits_val(name@.subrange(9, i as int)),
        decreases len - i,
    {
        let c = name.get_char(i);
        let u = c as u32;
        if u < 48 || u > 57 {
            return None;
        }
        let d = char_to_digit(c);
        let limit = (u64::MAX - d) / 10;
        proof {
            vstd::arithmetic::div_mod::lemma_fundamental_div_mod(
                u64::MAX as int - d as int,
                10,
            );
        }
        if val > limit {
            proof {
                let partial = name@.subrange(9, i as int + 1);
                assert(partial.drop_last() =~= name@.subrange(9, i as int));
                assert(digits_val(partial) == val as int * 10 + d as int);
                assert(digits_val(partial) > u64::MAX as int);
                let suffix = name@.skip(9);
                if forall|k: int| 9 <= k < len ==> is_decimal_digit(#[trigger] name@[k]) {
                    assert(forall|k: int|
                        0 <= k < suffix.len() ==> is_decimal_digit(#[trigger] suffix[k]));
                    assert(suffix.take(i - 9 + 1) =~= partial);
                    lemma_digits_val_prefix(suffix, i - 9 + 1);
                }
            }
            return None;
        }
        proof {
            let partial = name@.subrange(9, i as int + 1);
            assert(partial.drop_last() =~= name@.subrange(9, i as int));
        }
        val = val * 10 + d;
        i = i + 1;
    }
    assert(name@.subrange(9, len as int) =~= name@.skip(9));
    Some(val)
}

/// The digit characters carry their values.
proof fn lemma_digit_props(d: int)
    requires
        0 <= d < 10,
    ensures
        is_decimal_digit(spec_digit(d)),
        digit_val(spec_digit(d)) == d,
{
    if d == 0 {
        assert('0' as u32 == 48);
    } else if d == 1 {
        assert('1' as u32 == 49);
    } else if d == 2 {
        assert('2' as u32 == 50);
    } else if d == 3 {
        assert('3' as u32 == 51);
    } else if d == 4 {
        assert('4' as u32 == 52);
    } else if d == 5 {
        assert('5' as u32 == 53);
    } else if d == 6 {
        assert('6' as u32 == 54);
    } else if d == 7 {
        assert('7' as u32 == 55);
    } else if d == 8 {
        assert('8' as u32 == 56);
    } else {
        assert('9' as u32 == 57);
    }
}

/// Every character the decimal writer emits is a digit.
proof fn lemma_spec_digits_are_digits(n: nat)
    ensures
        forall|i: int|
            0 <= i < spec_digits(n).len() ==> is_decimal_digit(#[trigger] spec_digits(n)[i]),
    decreases n,
{
    if n < 10 {
        lemma_digit_props(n as int);
        assert forall|i: int|
            0 <= i < spec_digits(n).len() implies is_decimal_digit(
            #[trigger] spec_digits(n)[i],
        ) by {
            assert(spec_digits(n)[i] == spec_digit(n as int));
        }
    } else {
        lemma_spec_digits_are_digits(n / 10);
        lemma_digit_props((n % 10) as int);
        assert forall|i: int|
            0 <= i < spec_digits(n).len() implies is_decimal_digit(
            #[trigger] spec_digits(n)[i],
        ) by {
            if i < spec_digits(n).len() - 1 {
                assert(spec_digits(n)[i] == spec_digits(n / 10)[i]);
            } else {
                assert(spec_digits(n)[i] == spec_digit((n % 10) as int));
            }
        }
    }
}

/// Reading back the digits of `n` yields `n`.
proof fn lemma_digits_val_round_trip(n: nat)
    ensures
        digits_val(spec_digits(n)) == n,
    decreases n,
{
    if n < 10 {
        lemma_digit_props(n as int);
        assert(digits_val(Seq::<char>::empty()) == 0);
        assert(spec_digits(n).drop_last() =~= Seq::<char>::empty());
        assert(spec_digits(n).last() == spec_digit(n as int));
    } else {
        lemma_digits_val_round_trip(n / 10);
        lemma_digit_props((n % 10) as int);
        assert(spec_digits(n).drop_last() =~= spec_digits(n / 10));
        assert(spec_digits(n).last() == spec_digit((n % 10) as int));
    }
}

/// A run of `'0'` characters reads as zero.
proof fn lemma_digits_val_all_zeros(z: nat)
    ensures
        digits_val(Seq::new(z, |i: int| '0')) == 0,
    decreases z,
{
    if z > 0 {
        lemma_digits_val_all_zeros((z - 1) as nat);
        assert(Seq::new(z, |i: int| '0').drop_last() =~= Seq::new((z - 1) as nat, |i: int| '0'));
        assert(digit_val('0') == 0);
    }
}

/// Leading zeros do not change the number a digit string reads as.
proof fn lemma_digits_val_leading_zeros(z: nat, s: Seq<char>)
    ensures
        digits_val(Seq::new(z, |i: int| '0') + s) == digits_val(s),
    decreases s.len(),
{
    let zeros = Seq::new(z, |i: int| '0');
    if s.len() == 0 {
        assert(zeros + s =~= zeros);
        lemma_digits_val_all_zeros(z);
    } else {
        lemma_digits_val_leading_zeros(z, s.drop_last());
        assert((zeros + s).drop_last() =~= zeros + s.drop_last());
        assert((zeros + s).last() == s.last());
    }
}

/// The naming grammar round-trips: the directory name written for a
/// generation parses back to exactly that generation, so a store that
/// scans the names it wrote finds every generation again.
pub proof fn lemma_dir_name_round_trip(g: u64)
    ensures
        spec_extract_generation(spec_snapshot_dir_name(g as nat)) == Some(g),
{
    reveal_strlit("snapshot-");
    let name = spec_snapshot_dir_name(g as nat);
    let zeros = Seq::new(spec_pad_len(g as nat), |i: int| '0');
    let digits = spec_digits(g as nat);
    lemma_spec_digits_are_digits(g as nat);
    lemma_digits_val_round_trip(g as nat);
    lemma_digits_val_leading_zeros(spec_pad_len(g as nat), digits);
    assert(digits.len() >= 1);
    assert(name.len() >= 15);
    assert(name.take(9) =~= "snapshot-"@);
    assert(name.skip(9) =~= zeros + digits);
    assert forall|i: int| 9 <= i < name.len() implies is_decimal_digit(#[trigger] name[i]) by {
        if i - 9 < zeros.len() {
            assert(name[i] == '0');
        } else {
            assert(name[i] == digits[i - 9 - zeros.len()]);
        }
    }
    assert(digits_val(name.skip(9)) == g);
}

/// One persisted snapshot as the store models it: its generation, and
/// its collection when the collection artifact is retrievable.
struct SnapshotRecord {
    generation: u64,
    collection: Option<Vec<Item>>,
}

/// Mathematical model of one persisted snapshot.
pub struct SnapshotRecordView {
    pub generation: u64,
    pub collection: Option<Seq<ItemView>>,
}

impl View for SnapshotRecord {
    type V = SnapshotRecordView;

    closed spec fn view(&self) -> SnapshotRecordView {
        SnapshotRecordView {
            generation: self.generation,
            collection: self.collection.deep_view(),
        }
    }
}

impl DeepView for SnapshotRecord {
    type V = SnapshotRecordView;

    closed spec fn deep_view(&self) -> SnapshotRecordView {
        self@
    }
}

/// The records a directory listing restores: one per entry whose name
/// conforms to the snapshot naming grammar, in listing order.
pub open spec fn spec_restore(entries: Seq<(Seq<char>, Option<Seq<ItemView>>)>) -> Seq<
    SnapshotRecordView,
>
    decreases entries.len(),
{
    if entries.len() == 0 {
        Seq::<SnapshotRecordView>::empty()
    } else {
        let rest = spec_restore(entries.drop_last());
        match spec_extract_generation(entries.last().0) {
            Some(g) => rest.push(
                SnapshotRecordView { generation: g, collection: entries.last().1 },
            ),
            None => rest,
        }
    }
}

/// The highest generation among the persisted snapshots, or 0 when none
/// exist.
pub open spec fn latest_spec(snaps: Seq<SnapshotRecordView>) -> u64
    decreases snaps.len(),
{
    if snaps.len() == 0 {
        0u64
    } else {
        let rest = latest_spec(snaps.drop_last());
        if snaps.last().generation > rest {
            snaps.last().generation
        } else {
            rest
        }
    }
}

/// The index of the last record that carries generation `g`, or -1 when
/// none does.
pub open spec fn index_of_generation(snaps: Seq<SnapshotRecordView>, g: u64) -> int
    decreases snaps.len(),
{
    if snaps.len() == 0 {
        -1
    } else if snaps.last().generation == g {
        snaps.len() - 1
    } else {
        index_of_generation(snaps.drop_last(), g)
    }
}

/// The collection persisted at generation `g`, when a snapshot with that
/// generation exists and its collection is retrievable.
pub open spec fn collection_at(snaps: Seq<SnapshotRecordView>, g: u64) -> Option<Seq<ItemView>> {
    let i = index_of_generation(snaps, g);
    if i < 0 {
        None
    } else {
        snaps[i].collection
    }
}

/// `index_of_generation` stays within the store, and a non-negative
/// answer really carries the generation asked for.
proof fn lemma_index_of_generation_bounds(snaps: Seq<SnapshotRecordView>, g: u64)
    ensures
        -1 <= index_of_generation(snaps, g) < snaps.len(),
        index_of_generation(snaps, g) >= 0 ==> snaps[index_of_generation(snaps, g)].generation
            == g,
    decreases snaps.len(),
{
    if snaps.len() > 0 && snaps.last().generation != g {
        lemma_index_of_generation_bounds(snaps.drop_last(), g);
    }
}

/// Every generation in the store is bounded by the latest one.
proof fn lemma_latest_is_bound(snaps: Seq<SnapshotRecordView>, i: int)
    requires
        0 <= i < snaps.len(),
    ensures
        snaps[i].generation <= latest_spec(snaps),
    decreases snaps.len(),
{
    if i < snaps.len() - 1 {
        lemma_latest_is_bound(snaps.drop_last(), i);
    }
}

/// A non-empty store holds a snapshot that carries the latest generation.
proof fn lemma_latest_exists(snaps: Seq<SnapshotRecordView>)
    requires
        snaps.len() > 0,
    ensures
        exists|i: int| 0 <= i < snaps.len() && snaps[i].generation == latest_spec(snaps),
    decreases snaps.len(),
{
    if snaps.len() == 1 {
        assert(snaps.drop_last().len() == 0);
        assert(latest_spec(snaps.drop_last()) == 0);
        assert(snaps[0].generation == latest_spec(snaps));
    } else {
        let rest = snaps.drop_last();
        lemma_latest_exists(rest);
        if snaps.last().generation > latest_spec(rest) {
            assert(snaps[snaps.len() - 1].generation == latest_spec(snaps));
        } else {
            let i = choose|i: int| 0 <= i < rest.len() && rest[i].generation == latest_spec(rest);
            assert(snaps[i].generation == latest_spec(snaps));
        }
    }
}

/// Deleting a snapshot whose generation is below the latest leaves the
/// latest generation — and with it the next generation a write will
/// assign — unchanged.
pub proof fn lemma_latest_ignores_removal(snaps: Seq<SnapshotRecordView>, i: int)
    requires
        0 <= i < snaps.len(),
        snaps[i].generation < latest_spec(snaps),
    ensures
        latest_spec(snaps.remove(i)) == latest_spec(snaps),
{
    let r = snaps.remove(i);
    lemma_latest_exists(snaps);
    let j = choose|j: int| 0 <= j < snaps.len() && snaps[j].generation == latest_spec(snaps);
    if j < i {
        assert(r[j] == snaps[j]);
        lemma_latest_is_bound(r, j);
    } else {
        assert(r[j - 1] == snaps[j]);
        lemma_latest_is_bound(r, j - 1);
    }
    if r.len() > 0 {
        lemma_latest_exists(r);
        let k = choose|k: int| 0 <= k < r.len() && r[k].generation == latest_spec(r);
        if k < i {
            assert(r[k] == snaps[k]);
            lemma_latest_is_bound(snaps, k);
        } else {
            assert(r[k] == snaps[k + 1]);
            lemma_latest_is_bound(snaps, k + 1);
        }
    }
}

/// What a write records, a read at its generation returns: in the
/// store a write leaves behind, the collection at the assigned
/// generation is exactly the collection written, whatever the store
/// held before.
pub proof fn lemma_read_after_write(
    snaps: Seq<SnapshotRecordView>,
    g: u64,
    tracks: Seq<ItemView>,
)
    ensures
        collection_at(
            snaps.push(SnapshotRecordView { generation: g, collection: Some(tracks) }),
            g,
        ) == Some(tracks),
{
    let p = snaps.push(SnapshotRecordView { generation: g, collection: Some(tracks) });
    assert(p.last().generation == g);
    assert(index_of_generation(p, g) == p.len() - 1);
}

/// Writes on one store climb by exactly one: after `j` writes the
/// latest generation is `j`.
proof fn lemma_latest_counts_writes(stores: Seq<Seq<SnapshotRecordView>>, gens: Seq<u64>, j: int)
    requires
        stores.len() == gens.len() + 1,
        stores[0].len() == 0,
        forall|k: int| 0 <= k < gens.len() ==> #[trigger] gens[k] == latest_spec(stores[k]) + 1,
        forall|k: int| 0 <= k < gens.len() ==> latest_spec(#[trigger] stores[k + 1]) == gens[k],
        0 <= j <= gens.len(),
    ensures
        latest_spec(stores[j]) == j,
    decreases j,
{
    if j == 0 {
        assert(latest_spec(stores[0]) == 0);
    } else {
        lemma_latest_counts_writes(stores, gens, j - 1);
        assert(gens[j - 1] == latest_spec(stores[j - 1]) + 1);
        assert(latest_spec(stores[j - 1 + 1]) == gens[j - 1]);
    }
}

/// Across any sequence of `snapshot` calls the assigned generations are
/// exactly 1, 2, 3, … in call order: `stores[j]` is the store's model
/// just before the `j`-th write, and `gens[j]` the generation that
/// write assigns, as [`Persistence::snapshot`]'s contract states them.
/// Deleting snapshots below the latest between the writes leaves every
/// premise standing, by [`lemma_latest_ignores_removal`], so such
/// deletions never disturb the numbering.
pub proof fn lemma_generations_are_sequential(
    stores: Seq<Seq<SnapshotRecordView>>,
    gens: Seq<u64>,
)
    requires
        stores.len() == gens.len() + 1,
        stores[0].len() == 0,
        forall|k: int| 0 <= k < gens.len() ==> #[trigger] gens[k] == latest_spec(stores[k]) + 1,
        forall|k: int| 0 <= k < gens.len() ==> latest_spec(#[trigger] stores[k + 1]) == gens[k],
    ensures
        forall|k: int| 0 <= k < gens.len() ==> #[trigger] gens[k] == k + 1,
{
    assert forall|k: int| 0 <= k < gens.len() implies #[trigger] gens[k] == k + 1 by {
        lemma_latest_counts_writes(stores, gens, k);
    }
}

/// A point-in-time capture as handed back by [`Persistence::snapshot`]:
/// the generation it was stored under, when it was taken, the directory
/// that holds its artifacts, and its diff against the prior capture.
pub struct Snapshot {
    /// The generation assigned to this capture.
    pub generation: u64,
    /// When the capture was taken, as seconds handed in by the caller.
    pub captured_at: i64,
    /// The directory that holds this capture's artifacts.
    pub dir: String,
    /// The diff against the latest prior capture, when one was
    /// retrievable.
    pub diff: Option<Diff>,
}

/// Why a read of persisted data failed.
#[derive(Clone, Copy, Debug, PartialEq, Eq, Structural)]
pub enum PersistenceError {
    /// No retrievable collection exists at the requested generation.
    NotFound,
}

/// The snapshot store and token cache: assigns strictly increasing
/// generation numbers to collection captures, keeps each capture
/// retrievable by generation, and holds the single active token record.
pub struct Persistence {
    output_dir: String,
    snaps: Vec<SnapshotRecord>,
    cached_tokens: Option<Tokens>,
}

/// Mathematical model of the store: where it writes, the persisted
/// snapshots in the order they were recorded, and the cached token
/// record.
pub struct PersistenceView {
    pub output_dir: Seq<char>,
    pub snaps: Seq<SnapshotRecordView>,
    pub cached_tokens: Option<TokensView>,
}

impl View for Persistence {
    type V = PersistenceView;

    closed spec fn view(&self) -> PersistenceView {
        PersistenceView {
            output_dir: self.output_dir@,
            snaps: self.snaps.deep_view(),
            cached_tokens: self.cached_tokens.deep_view(),
        }
    }
}

impl Persistence {
    /// A store over `output_dir` with nothing persisted yet.
    pub fn new(output_dir: String) -> (p: Persistence)
        ensures
            p@.output_dir == output_dir@,
            p@.snaps == Seq::<SnapshotRecordView>::empty(),
            p@.cached_tokens is None,
    {
        let p = Persistence { output_dir, snaps: Vec::new(), cached_tokens: None };
        assert(p@.snaps =~= Seq::<SnapshotRecordView>::empty());
        p
    }

    /// Rebuilds the store from a listing of the output directory: each
    /// entry pairs a directory name with the collection read from it,
    /// when one was retrievable. Entries whose name does not conform to
    /// the snapshot naming grammar are skipped; no token record is
    /// restored here.
    pub fn restore(output_dir: String, entries: Vec<(String, Option<Vec<Item>>)>) -> (p:
        Persistence)
        ensures
            p@.output_dir == output_dir@,
            p@.cached_tokens is None,
            p@.snaps == spec_restore(entries.deep_view()),
    {
        let ghost entries_view = entries.deep_view();
        let mut snaps: Vec<SnapshotRecord> = Vec::new();
        let n = entries.len();
        assert(entries_view.take(0) =~= Seq::<(Seq<char>, Option<Seq<ItemView>>)>::empty());
        for i in 0..n
            invariant
                n == entries.len(),
                entries_view == entries.deep_view(),
                entries_view.len() == n,
                snaps.deep_view() == spec_restore(entries_view.take(i as int)),
        {
            let ghost pre = snaps.deep_view();
            proof {
                assert(entries_view.take(i + 1).drop_last() =~= entries_view.take(i as int));
                assert(entries_view.take(i + 1).last() == entries_view[i as int]);
                assert(entries_view[i as int].0 == entries@[i as int].0@);
                assert(entries_view[i as int].1 == entries@[i as int].1.deep_view());
            }
            match extract_snapshot_dir_number(entries[i].0.as_str()) {
                None => {},
                Some(g) => {
                    let collection = match entries[i].1.as_ref() {
                        None => None,
                        Some(tracks) => Some(clone_items(tracks)),
                    };
                    let record = SnapshotRecord { generation: g, collection };
                    let ghost record_view = record@;
                    snaps.push(record);
                    proof {
                        assert(snaps.deep_view() =~= pre.push(record_view));
                        assert(record_view.collection == entries_view[i as int].1);
                    }
                },
            }
        }
        assert(entries_view.take(n as int) =~= entries_view);
        Persistence { output_dir, snaps, cached_tokens: None }
    }

    /// The latest generation among the persisted snapshots, or `None`
    /// when none exist.
    pub fn get_last_snapshot(&self) -> (r: Option<u64>)
        ensures
            r == if self@.snaps.len() == 0 {
                None::<u64>
            } else {
                Some(latest_spec(self@.snaps))
            },
    {
        if self.snaps.len() == 0 {
            None
        } else {
            Some(self.latest_generation_value())
        }
    }

    /// The highest generation recorded, or 0 when none is.
    fn latest_generation_value(&self) -> (g: u64)
        ensures
            g == latest_spec(self@.snaps),
    {
        let ghost snaps = self@.snaps;
        let mut m: u64 = 0;
        let n = self.snaps.len();
        assert(snaps.take(0) =~= Seq::<SnapshotRecordView>::empty());
        for i in 0..n
            invariant
                n == self.snaps.len(),
                snaps == self@.snaps,
                snaps.len() == n,
                m == latest_spec(snaps.take(i as int)),
        {
            let g = self.snaps[i].generation;
            proof {
                assert(snaps.take(i + 1).drop_last() =~= snaps.take(i as int));
                assert(snaps.take(i + 1).last() == snaps[i as int]);
                assert(snaps[i as int].generation == g);
            }
            if g > m {
                m = g;
            }
        }
        assert(snaps.take(n as int) =~= snaps);
        m
    }

    /// The index of the last record carrying generation `snapshot`, if
    /// one does.
    fn find_index(&self, snapshot: u64) -> (r: Option<usize>)
        ensures
            match r {
                Some(j) => j as int == index_of_generation(self@.snaps, snapshot),
                None => index_of_generation(self@.snaps, snapshot) == -1,
            },
    {
        let ghost snaps = self@.snaps;
        let mut found: Option<usize> = None;
        let n = self.snaps.len();
        for i in 0..n
            invariant
                n == self.snaps.len(),
                snaps == self@.snaps,
                snaps.len() == n,
                match found {
                    Some(j) => j as int == index_of_generation(snaps.take(i as int), snapshot),
                    None => index_of_generation(snaps.take(i as int), snapshot) == -1,
                },
        {
            proof {
                assert(snaps.take(i + 1).drop_last() =~= snaps.take(i as int));
                assert(snaps.take(i + 1).last() == snaps[i as int]);
            }
            if self.snaps[i].generation == snapshot {
                found = Some(i);
            }
        }
        assert(snaps.take(n as int) =~= snaps);
        found
    }

    /// The directory that holds generation `snapshot`.
    pub fn snapshot_path(&self, snapshot: u64) -> (r: String)
        ensures
            r@ == self@.output_dir + "/"@ + spec_snapshot_dir_name(snapshot as nat),
    {
        let mut p = self.output_dir.clone();
        p.append("/");
        let name = snapshot_dir_name(snapshot);
        p.append(name.as_str());
        p
    }

    /// The persisted collection at generation `snapshot`; fails with
    /// `NotFound` exactly when no retrievable collection exists there.
    pub fn read_snapshot(&self, snapshot: u64) -> (r: Result<&Vec<Item>, PersistenceError>)
        ensures
            match r {
                Ok(tracks) => collection_at(self@.snaps, snapshot) == Some(tracks.deep_view()),
                Err(e) => e == PersistenceError::NotFound && collection_at(self@.snaps, snapshot)
                    is None,
            },
    {
        proof {
            lemma_index_of_generation_bounds(self@.snaps, snapshot);
        }
        match self.find_index(snapshot) {
            None => Err(PersistenceError::NotFound),
            Some(j) => match self.snaps[j].collection.as_ref() {
                None => Err(PersistenceError::NotFound),
                Some(tracks) => Ok(tracks),
            },
        }
    }

    /// Records a capture of the collection. The new snapshot is assigned
    /// the generation after the latest persisted one (1 on an empty
    /// store), its collection is retrievable at that generation, and it
    /// carries a diff against the latest prior capture exactly when that
    /// capture's collection was still retrievable — the very first
    /// capture never carries one.
    pub fn snapshot(&mut self, tracks: Vec<Item>, captured_at: i64) -> (s: Snapshot)
        requires
            latest_spec(old(self)@.snaps) < u64::MAX,
        ensures
            final(self)@.output_dir == old(self)@.output_dir,
            final(self)@.cached_tokens == old(self)@.cached_tokens,
            s.generation == latest_spec(old(self)@.snaps) + 1,
            final(self)@.snaps == old(self)@.snaps.push(
                SnapshotRecordView {
                    generation: s.generation,
                    collection: Some(tracks.deep_view()),
                },
            ),
            latest_spec(final(self)@.snaps) == s.generation,
            collection_at(final(self)@.snaps, s.generation) == Some(tracks.deep_view()),
            s.captured_at == captured_at,
            s.dir@ == old(self)@.output_dir + "/"@ + spec_snapshot_dir_name(s.generation as nat),
            old(self)@.snaps.len() == 0 ==> s.diff is None,
            old(self)@.snaps.len() > 0 ==> match collection_at(
                old(self)@.snaps,
                latest_spec(old(self)@.snaps),
            ) {
                Some(prev) => s.diff is Some && s.diff->Some_0@.added == spec_added(
                    prev,
                    tracks.deep_view(),
                ) && s.diff->Some_0@.removed == spec_removed(prev, tracks.deep_view()),
                None => s.diff is None,
            },
    {
        let ghost old_snaps = self@.snaps;
        let last = self.get_last_snapshot();
        let next = match last {
            None => 1,
            Some(g) => g + 1,
        };
        let diff = match last {
            None => None,
            Some(g) => {
                proof {
                    lemma_index_of_generation_bounds(self@.snaps, g);
                }
                match self.find_index(g) {
                    None => None,
                    Some(j) => match self.snaps[j].collection.as_ref() {
                        None => None,
                        Some(old_tracks) => Some(Diff::calculate(old_tracks, &tracks)),
                    },
                }
            },
        };
        let dir = self.snapshot_path(next);
        let record = SnapshotRecord { generation: next, collection: Some(tracks) };
        let ghost record_view = record@;
        self.snaps.push(record);
        proof {
            assert(self@.snaps =~= old_snaps.push(record_view));
            assert(self@.snaps.drop_last() =~= old_snaps);
            lemma_index_of_generation_bounds(self@.snaps, next);
        }
        Snapshot { generation: next, captured_at, dir, diff }
    }

    /// Stores `tokens` as the single active token record, replacing any
    /// prior record wholesale; snapshots are untouched.
    pub fn cache_tokens(&mut self, tokens: &Tokens)
        ensures
            final(self)@.cached_tokens == Some(tokens@),
            final(self)@.snaps == old(self)@.snaps,
            final(self)@.output_dir == old(self)@.output_dir,
    {
        self.cached_tokens = Some(clone_response(tokens));
    }

    /// The cached token record, or `None` when none has ever been
    /// stored.
    pub fn get_cached_tokens(&self) -> (r: Option<&Tokens>)
        ensures
            match r {
                Some(t) => self@.cached_tokens == Some(t@),
                None => self@.cached_tokens is None,
            },
    {
        self.cached_tokens.as_ref()
    }

    /// The file that caches the token record.
    pub fn get_token_cache_path(&self) -> (r: String)
        ensures
            r@ == self@.output_dir + "/"@ + "cache"@ + "/"@ + "tokens.json"@,
    {
        let mut p = self.output_dir.clone();
        p.append("/");
        p.append("cache");
        p.append("/");
        p.append("tokens.json");
        p
    }
}

} // verus!

