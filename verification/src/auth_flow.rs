//! The authorization-code grant flow: the URL the user is sent to, the
//! capture slot the local callback listener fills, and the parsing of
//! the redirect's query string.

use crate::encoding::{urlencode_component, urlencoded_of};
use vstd::prelude::*;

verus! {

/// Local URL to listen on for authorization-code callbacks.
pub const REDIRECT_URL: &'static str = "http://localhost:3000";

/// The same as [`REDIRECT_URL`], without the `http://` prefix.
pub const REDIRECT_URL_WITHOUT_PROTOCOL: &'static str = "localhost:3000";

/// Spotify client ID and secret.
#[derive(Clone)]
pub struct ClientCredentials {
    /// Spotify client ID.
    pub id: String,
    /// Spotify client secret.
    pub secret: String,
}

/// Builds the URL the user is sent to in order to authorize the app:
/// the authorization endpoint asked with the client id, the response
/// type `code`, the local redirect target, and the read-library scope.
/// The client id and the redirect target are form-urlencoded; the other
/// parameters are fixed strings the encoding leaves as they are.
pub fn authorize_url(credentials: &ClientCredentials) -> (r: String)
    ensures
        r@ == "https://accounts.spotify.com/authorize?client_id="@ + urlencoded_of(
            credentials.id@,
        ) + "&response_type=code&redirect_uri="@ + urlencoded_of(REDIRECT_URL@)
            + "&scope=user-library-read"@,
{
    let encoded_id = urlencode_component(credentials.id.as_str());
    let encoded_redirect = urlencode_component(REDIRECT_URL);
    let mut r = String::new();
    r.append("https://accounts.spotify.com/authorize?client_id=");
    r.append(encoded_id.as_str());
    r.append("&response_type=code&redirect_uri=");
    r.append(encoded_redirect.as_str());
    r.append("&scope=user-library-read");
    assert(r@ =~= "https://accounts.spotify.com/authorize?client_id="@ + urlencoded_of(
        credentials.id@,
    ) + "&response_type=code&redirect_uri="@ + urlencoded_of(REDIRECT_URL@)
        + "&scope=user-library-read"@);
    r
}

/// The single synchronized slot the callback listener writes into: the
/// last `code` parameter observed, if the last observed request carried
/// one.
pub struct CodeSlot {
    code: Option<String>,
}

impl View for CodeSlot {
    type V = Option<Seq<char>>;

    closed spec fn view(&self) -> Option<Seq<char>> {
        self.code.deep_view()
    }
}

impl CodeSlot {
    /// An empty slot: no code has been observed yet.
    pub fn new() -> (s: CodeSlot)
        ensures
            s@ is None,
    {
        CodeSlot { code: None }
    }

    /// Records what one inbound request carried in its `code` query
    /// parameter; the slot afterwards holds exactly that observation.
    pub fn observe_request(&mut self, code_param: Option<String>)
        ensures
            final(self)@ == code_param.deep_view(),
    {
        self.code = code_param;
    }

    /// Whether a code has been captured, so that a waiter may stop
    /// polling.
    pub fn ready(&self) -> (r: bool)
        ensures
            r == (self@ is Some),
    {
        self.code.is_some()
    }

    /// The captured code, once one is there.
    pub fn current_code(&self) -> (r: Option<&String>)
        ensures
            match r {
                Some(code) => self@ == Some(code@),
                None => self@ is None,
            },
    {
        self.code.as_ref()
    }
}

/// The index of the first occurrence of `sep` in `s`, or `s.len()` when
/// none occurs.
pub open spec fn first_sep(s: Seq<char>, sep: char) -> nat
    decreases s.len(),
{
    if s.len() == 0 {
        0
    } else if s[0] == sep {
        0
    } else {
        1 + first_sep(s.drop_first(), sep)
    }
}

/// A position before which no separator stands, and which is the end or
/// a separator, is exactly `first_sep`.
proof fn lemma_first_sep_unique(s: Seq<char>, sep: char, j: int)
    requires
        0 <= j <= s.len(),
        forall|k: int| 0 <= k < j ==> s[k] != sep,
        j < s.len() ==> s[j] == sep,
    ensures
        first_sep(s, sep) == j,
    decreases j,
{
    if j == 0 {
        if s.len() > 0 {
            assert(s[0] == sep);
        }
    } else {
        assert(s[0] != sep);
        let d = s.drop_first();
        assert forall|k: int| 0 <= k < j - 1 implies d[k] != sep by {
            assert(d[k] == s[k + 1]);
        }
        lemma_first_sep_unique(d, sep, j - 1);
    }
}

/// The pieces of `s` between occurrences of `sep`; `sep` itself belongs
/// to no piece, and a trailing or leading separator yields an empty
/// piece.
pub open spec fn spec_split(s: Seq<char>, sep: char) -> Seq<Seq<char>>
    decreases s.len(),
{
    let i = first_sep(s, sep);
    if i >= s.len() {
        seq![s]
    } else {
        seq![s.take(i as int)] + spec_split(s.skip(i as int + 1), sep)
    }
}

/// A split never comes back empty.
proof fn lemma_split_len_pos(s: Seq<char>, sep: char)
    ensures
        spec_split(s, sep).len() >= 1,
    decreases s.len(),
{
    let i = first_sep(s, sep);
    if i < s.len() {
        lemma_split_len_pos(s.skip(i as int + 1), sep);
    }
}

/// Whether one `&`-separated pair addresses the parameter `name`:
/// either it is exactly `name`, or it starts with `name` followed by
/// `=`.
pub open spec fn pair_matches(pair: Seq<char>, name: Seq<char>) -> bool {
    pair == name || (pair.len() > name.len() && pair.take(name.len() as int) == name && pair[
        name.len() as int
    ] == '=')
}

/// The value a pair carries: what stands between its first `=` and its
/// second (or its end), and nothing when it has no `=` at all.
pub open spec fn pair_value(pair: Seq<char>) -> Seq<char> {
    let pieces = spec_split(pair, '=');
    if pieces.len() >= 2 {
        pieces[1]
    } else {
        Seq::<char>::empty()
    }
}

/// The value of the first pair that addresses `name`, scanning pairs in
/// order.
pub open spec fn find_in_pairs(pairs: Seq<Seq<char>>, name: Seq<char>) -> Option<Seq<char>>
    decreases pairs.len(),
{
    if pairs.len() == 0 {
        None
    } else if pair_matches(pairs.first(), name) {
        Some(pair_value(pairs.first()))
    } else {
        find_in_pairs(pairs.drop_first(), name)
    }
}

/// The value of the query parameter `name` in the raw query string
/// `query`, if a pair for it stands there.
pub open spec fn spec_find_param(query: Seq<char>, name: Seq<char>) -> Option<Seq<char>> {
    find_in_pairs(spec_split(query, '&'), name)
}

/// The index of the first `sep` at or after `from`, or the length when
/// none follows.
fn scan_for(s: &str, from: usize, sep: char) -> (j: usize)
    requires
        from <= s@.len(),
    ensures
        from <= j <= s@.len(),
        j - from == first_sep(s@.skip(from as int), sep),
{
    let len = s.unicode_len();
    let mut j = from;
    while j < len
        invariant
            from <= j <= len,
            len == s@.len(),
            forall|k: int| from <= k < j ==> s@[k] != sep,
        decreases len - j,
    {
        if s.get_char(j) == sep {
            proof {
                let rem = s@.skip(from as int);
                assert forall|k: int| 0 <= k < j - from implies rem[k] != sep by {
                    assert(rem[k] == s@[k + from]);
                }
                assert(rem[j - from] == s@[j as int]);
                lemma_first_sep_unique(rem, sep, j - from);
            }
            return j;
        }
        j = j + 1;
    }
    proof {
        let rem = s@.skip(from as int);
        assert forall|k: int| 0 <= k < len - from implies rem[k] != sep by {
            assert(rem[k] == s@[k + from]);
        }
        lemma_first_sep_unique(rem, sep, len - from);
    }
    len
}

/// Character-for-character string equality.
fn str_eq(a: &str, b: &str) -> (r: bool)
    ensures
        r == (a@ == b@),
{
    let la = a.unicode_len();
    let lb = b.unicode_len();
    if la != lb {
        return false;
    }
    for i in 0..la
        invariant
            la == a@.len(),
            la == b@.len(),
            forall|k: int| 0 <= k < i ==> a@[k] == b@[k],
    {
        if a.get_char(i) != b.get_char(i) {
            return false;
        }
    }
    assert(a@ =~= b@);
    true
}

/// Whether `pair` addresses the parameter `name`.
fn matches_pair(pair: &str, name: &str) -> (r: bool)
    ensures
        r == pair_matches(pair@, name@),
{
    let pl = pair.unicode_len();
    let nl = name.unicode_len();
    if pl == nl {
        let eq = str_eq(pair, name);
        proof {
            if !eq {
                assert(!(pair@.len() > name@.len()));
            }
        }
        eq
    } else if pl > nl {
        for i in 0..nl
            invariant
                pl == pair@.len(),
                nl == name@.len(),
                pl > nl,
                forall|k: int| 0 <= k < i ==> pair@[k] == name@[k],
        {
            if pair.get_char(i) != name.get_char(i) {
                proof {
                    assert(pair@.take(nl as int)[i as int] != name@[i as int]);
                    assert(pair@ != name@);
                }
                return false;
            }
        }
        assert(pair@.take(nl as int) =~= name@);
        pair.get_char(nl) == '='
    } else {
        proof {
            assert(pair@ != name@);
        }
        false
    }
}

/// The value carried by the pair `pair`, as [`pair_value`] defines it.
fn extract_pair_value(pair: &str) -> (r: String)
    ensures
        r@ == pair_value(pair@),
{
    let plen = pair.unicode_len();
    let e1 = scan_for(pair, 0, '=');
    proof {
        assert(pair@.skip(0) =~= pair@);
    }
    if e1 == plen {
        // No `=`: the pair splits into itself alone.
        proof {
            lemma_split_len_pos(pair@, '=');
            assert(spec_split(pair@, '=').len() == 1);
        }
        String::new()
    } else {
        let e2 = scan_for(pair, e1 + 1, '=');
        let value = pair.substring_char(e1 + 1, e2);
        proof {
            let rem = pair@.skip(e1 + 1);
            let i2 = first_sep(rem, '=');
            assert(i2 == e2 - (e1 + 1));
            let pieces = spec_split(pair@, '=');
            assert(pieces == seq![pair@.take(e1 as int)] + spec_split(rem, '='));
            lemma_split_len_pos(rem, '=');
            assert(pieces[1] == spec_split(rem, '=')[0]);
            if i2 >= rem.len() {
                assert(spec_split(rem, '=')[0] == rem);
                assert(rem =~= pair@.subrange(e1 + 1, e2 as int));
            } else {
                assert(spec_split(rem, '=')[0] == rem.take(i2 as int));
                assert(rem.take(i2 as int) =~= pair@.subrange(e1 + 1, e2 as int));
            }
        }
        value.to_owned()
    }
}

/// Reads the value of the query parameter `name` out of a raw query
/// string, as the callback listener does for the `code` the redirect
/// carries. The first pair addressing `name` wins; its value is handed
/// back as it stands in the query, and a pair with no `=` yields the
/// empty value.
pub fn find_query_param(query: &str, name: &str) -> (r: Option<String>)
    ensures
        r.deep_view() == spec_find_param(query@, name@),
{
    let len = query.unicode_len();
    let mut start: usize = 0;
    proof {
        assert(query@.skip(0) =~= query@);
    }
    loop
        invariant
            start <= len,
            len == query@.len(),
            spec_find_param(query@, name@) == find_in_pairs(
                spec_split(query@.skip(start as int), '&'),
                name@,
            ),
        decreases len - start,
    {
        let j = scan_for(query, start, '&');
        let piece = query.substring_char(start, j);
        let ghost rem = query@.skip(start as int);
        let ghost i = first_sep(rem, '&');
        proof {
            assert(i == j - start);
            if i >= rem.len() {
                assert(spec_split(rem, '&') == seq![rem]);
                assert(piece@ =~= rem);
                assert(spec_split(rem, '&').first() == piece@);
                assert(spec_split(rem, '&').len() == 1);
            } else {
                assert(spec_split(rem, '&') == seq![rem.take(i as int)] + spec_split(
                    rem.skip(i as int + 1),
                    '&',
                ));
                assert(rem.take(i as int) =~= query@.subrange(start as int, j as int));
                assert(spec_split(rem, '&').first() == piece@);
            }
        }
        if matches_pair(piece, name) {
            let value = extract_pair_value(piece);
            return Some(value);
        }
        if j == len {
            proof {
                assert(i >= rem.len());
                assert(spec_split(rem, '&') == seq![rem]);
                assert(!pair_matches(piece@, name@));
                assert(seq![rem].drop_first() =~= Seq::<Seq<char>>::empty());
                assert(find_in_pairs(Seq::<Seq<char>>::empty(), name@) is None);
                assert(find_in_pairs(spec_split(rem, '&'), name@) is None);
            }
            return None;
        }
        proof {
            assert(spec_split(rem, '&').drop_first() =~= spec_split(rem.skip(i as int + 1), '&'));
            assert(rem.skip(i as int + 1) =~= query@.skip(j + 1));
        }
        start = j + 1;
    }
}

} // verus!
