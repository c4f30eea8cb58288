//! The saved-track collection as the list endpoint returns it.

use vstd::prelude::*;

verus! {

/// The Spotify list user tracks endpoint.
pub const ENDPOINT: &'static str = "https://api.spotify.com/v1/me/tracks";

/// A Spotify artist.
#[derive(Clone, Debug, PartialEq, Eq)]
pub struct Artist {
    /// The name of the artist.
    pub name: String,
}

/// Mathematical model of an [`Artist`].
pub struct ArtistView {
    pub name: Seq<char>,
}

impl View for Artist {
    type V = ArtistView;

    open spec fn view(&self) -> ArtistView {
        ArtistView { name: self.name@ }
    }
}

impl DeepView for Artist {
    type V = ArtistView;

    open spec fn deep_view(&self) -> ArtistView {
        self@
    }
}

/// A Spotify track.
#[derive(Clone, Debug, PartialEq, Eq)]
pub struct Track {
    /// The artists that contributed to the track.
    pub artists: Vec<Artist>,
    /// The ID of the track.
    pub id: String,
    /// The name of the track.
    pub name: String,
}

/// Mathematical model of a [`Track`].
pub struct TrackView {
    pub artists: Seq<ArtistView>,
    pub id: Seq<char>,
    pub name: Seq<char>,
}

impl View for Track {
    type V = TrackView;

    open spec fn view(&self) -> TrackView {
        TrackView { artists: self.artists.deep_view(), id: self.id@, name: self.name@ }
    }
}

impl DeepView for Track {
    type V = TrackView;

    open spec fn deep_view(&self) -> TrackView {
        self@
    }
}

/// One item in the list tracks response.
#[derive(Clone, Debug, PartialEq, Eq)]
pub struct Item {
    /// The actual track data.
    pub track: Track,
}

/// Mathematical model of an [`Item`].
pub struct ItemView {
    pub track: TrackView,
}

impl View for Item {
    type V = ItemView;

    open spec fn view(&self) -> ItemView {
        ItemView { track: self.track@ }
    }
}

impl DeepView for Item {
    type V = ItemView;

    open spec fn deep_view(&self) -> ItemView {
        self@
    }
}

/// Response from the Spotify list user tracks endpoint.
#[derive(Clone, Debug, PartialEq, Eq)]
pub struct Response {
    /// Where to fetch the next page of the listing, if there is one.
    pub next: Option<String>,
    /// List of tracks.
    pub items: Vec<Item>,
}

/// Copies an artist; the copy models to the same value.
pub fn clone_artist(a: &Artist) -> (r: Artist)
    ensures
        r@ == a@,
{
    Artist { name: a.name.clone() }
}

/// Copies a track, artists included; the copy models to the same value.
pub fn clone_track(t: &Track) -> (r: Track)
    ensures
        r@ == t@,
{
    let mut artists: Vec<Artist> = Vec::new();
    let n = t.artists.len();
    for i in 0..n
        invariant
            n == t.artists.len(),
            artists.len() == i,
            forall|k: int| 0 <= k < i ==> artists@[k]@ == t.artists@[k]@,
    {
        artists.push(clone_artist(&t.artists[i]));
    }
    let r = Track { artists, id: t.id.clone(), name: t.name.clone() };
    assert(r.artists.deep_view() =~= t.artists.deep_view());
    r
}

/// Copies a collection item; the copy models to the same value.
pub fn clone_item(t: &Item) -> (r: Item)
    ensures
        r@ == t@,
{
    Item { track: clone_track(&t.track) }
}

/// Copies a whole collection; the copy models to the same sequence.
pub fn clone_items(v: &Vec<Item>) -> (r: Vec<Item>)
    ensures
        r.deep_view() == v.deep_view(),
{
    let mut r: Vec<Item> = Vec::new();
    let n = v.len();
    for i in 0..n
        invariant
            n == v.len(),
            r.len() == i,
            forall|k: int| 0 <= k < i ==> r.deep_view()[k] == v.deep_view()[k],
    {
        r.push(clone_item(&v[i]));
    }
    assert(r.deep_view() =~= v.deep_view());
    r
}

} // verus!
