//! The playlist-ordering engine: a fixed list of items, a permutation of
//! their indices (the play order), and a cursor into the permutation with an
//! explicit "unset" sentinel at either end of the list.

use crate::lex::sort_strings;
use crate::lex::sorted_lex;
use crate::lines::split_into_lines;
use crate::lines::split_lines;
use rand::seq::SliceRandom;
use vstd::prelude::*;

verus! {

/// The abstract state of a playlist: the item identifiers in their original
/// order, the play order as a permutation of the song indices, and the song
/// index and play-order position of the current item, if one is set.
#[verifier::ext_equal]
pub ghost struct PlaylistView {
    pub songs: Seq<Seq<char>>,
    pub order: Seq<usize>,
    pub song: Option<usize>,
    pub cursor: Option<usize>,
}

/// The identity permutation `[0, 1, ..., n - 1]`.
pub open spec fn identity_order(n: nat) -> Seq<usize> {
    Seq::new(n, |i: int| i as usize)
}

/// Well-formedness: there is at least one item, the play order is a
/// permutation of the song indices, and the cursor and the current song index
/// are either both unset or both set and consistent: the cursor is a position
/// in the play order and the current song index is the entry there.
pub open spec fn wf(s: PlaylistView) -> bool {
    &&& 1 <= s.songs.len() <= usize::MAX
    &&& s.order.len() == s.songs.len()
    &&& forall|i: int| 0 <= i < s.order.len() ==> (#[trigger] s.order[i]) < s.songs.len()
    &&& s.order.no_duplicates()
    &&& forall|j: usize| j < s.songs.len() ==> #[trigger] s.order.contains(j)
    &&& match s.cursor {
        Some(p) => p < s.order.len() && s.song == Some(s.order[p as int]),
        None => s.song is None,
    }
}

/// The state of a freshly built playlist: the given items, the identity play
/// order, and no current item until `first`, `last` or a shuffle sets one.
pub open spec fn init_view(items: Seq<Seq<char>>) -> PlaylistView {
    PlaylistView { songs: items, order: identity_order(items.len()), song: None, cursor: None }
}

/// The item identifier the playlist currently stands at, if any.
pub open spec fn current_of(s: PlaylistView) -> Option<Seq<char>> {
    match s.song {
        None => None,
        Some(i) => Some(s.songs[i as int]),
    }
}

/// State after `first`: the cursor stands at play-order position 0.
pub open spec fn step_first(s: PlaylistView) -> PlaylistView {
    PlaylistView { song: Some(s.order[0]), cursor: Some(0usize), ..s }
}

/// State after `last`: the cursor stands at the final play-order position.
pub open spec fn step_last(s: PlaylistView) -> PlaylistView {
    PlaylistView {
        song: Some(s.order[s.order.len() - 1]),
        cursor: Some((s.order.len() - 1) as usize),
        ..s
    }
}

/// State after `next`: one position forward, falling off the end into the
/// unset sentinel; from the sentinel, `next` stays put.
pub open spec fn step_next(s: PlaylistView) -> PlaylistView {
    match s.cursor {
        None => s,
        Some(p) => if p + 1 >= s.songs.len() {
            PlaylistView { song: None, cursor: None, ..s }
        } else {
            PlaylistView { song: Some(s.order[p + 1]), cursor: Some((p + 1) as usize), ..s }
        },
    }
}

/// State after `prev`: one position back, falling off the start into the
/// unset sentinel; from the sentinel, `prev` stays put.
pub open spec fn step_prev(s: PlaylistView) -> PlaylistView {
    match s.cursor {
        None => s,
        Some(p) => if p == 0 {
            PlaylistView { song: None, cursor: None, ..s }
        } else {
            PlaylistView { song: Some(s.order[p - 1]), cursor: Some((p - 1) as usize), ..s }
        },
    }
}

/// State after `playlist_order`: the play order returns to the identity
/// permutation, and the cursor moves to keep the current item current; under
/// the identity permutation a song's position equals its song index.
pub open spec fn step_playlist_order(s: PlaylistView) -> PlaylistView {
    PlaylistView { order: identity_order(s.songs.len()), song: s.song, cursor: s.song, ..s }
}

/// A playlist: the items as originally given, the order to play them in, and
/// the current position, if any, kept in both index spaces.
#[derive(Debug)]
pub struct Playlist {
    /// The item identifiers, fixed at construction.
    pub songs: Vec<String>,
    /// The current play order: a permutation of the song indices.
    pub order: Vec<usize>,
    /// Song index of the current item (an index into `songs`), if set.
    pub current_song: Option<usize>,
    /// Position of the current item in the play order (an index into
    /// `order`), if set.
    pub current_order: Option<usize>,
}

impl View for Playlist {
    type V = PlaylistView;

    open spec fn view(&self) -> PlaylistView {
        PlaylistView {
            songs: self.songs.deep_view(),
            order: self.order@,
            song: self.current_song,
            cursor: self.current_order,
        }
    }
}

/// The identity permutation is a permutation of the song indices.
proof fn lemma_identity_order_wf(n: nat)
    requires
        n <= usize::MAX,
    ensures
        identity_order(n).len() == n,
        forall|i: int| 0 <= i < n ==> (#[trigger] identity_order(n)[i]) < n,
        identity_order(n).no_duplicates(),
        forall|j: usize| j < n ==> #[trigger] identity_order(n).contains(j),
{
    let ord = identity_order(n);
    assert(forall|i: int| 0 <= i < n ==> (#[trigger] ord[i]) == i as usize);
    assert forall|j: usize| j < n implies #[trigger] ord.contains(j) by {
        assert(ord[j as int] == j);
    }
}

/// Builds the identity permutation as a vector.
fn identity_vec(n: usize) -> (r: Vec<usize>)
    ensures
        r@ == identity_order(n as nat),
{
    let mut r: Vec<usize> = Vec::new();
    let mut i: usize = 0;
    while i < n
        invariant
            i <= n,
            r@.len() == i,
            forall|t: int| 0 <= t < i ==> (#[trigger] r@[t]) == t as usize,
        decreases n - i,
    {
        r.push(i);
        i = i + 1;
    }
    proof {
        assert(r@ =~= identity_order(n as nat));
    }
    r
}

/// Rearranging a permutation of the song indices gives a permutation of the
/// song indices again.
proof fn lemma_rearranged_permutation(a: Seq<usize>, b: Seq<usize>, n: nat)
    requires
        a.to_multiset() == b.to_multiset(),
        a.len() == n,
        b.len() == n,
        forall|i: int| 0 <= i < a.len() ==> (#[trigger] a[i]) < n,
        a.no_duplicates(),
        forall|j: usize| j < n ==> #[trigger] a.contains(j),
    ensures
        forall|i: int| 0 <= i < b.len() ==> (#[trigger] b[i]) < n,
        b.no_duplicates(),
        forall|j: usize| j < n ==> #[trigger] b.contains(j),
{
    broadcast use vstd::seq_lib::group_to_multiset_ensures;

    a.lemma_multiset_has_no_duplicates();
    assert forall|j: usize| j < n implies #[trigger] b.contains(j) by {
        assert(a.contains(j));
        assert(b.to_multiset().count(j) > 0);
    }
    assert forall|i: int| 0 <= i < b.len() implies (#[trigger] b[i]) < n by {
        assert(b.contains(b[i]));
        assert(a.to_multiset().count(b[i]) > 0);
        assert(a.contains(b[i]));
        let w = choose|w: int| 0 <= w < a.len() && a[w] == b[i];
        assert(a[w] < n);
    }
    assert(forall|x: usize|
        b.to_multiset().contains(x) ==> #[trigger] b.to_multiset().count(x) == 1);
    b.lemma_multiset_has_no_duplicates_conv();
}

/// rand's standard generator, used only as an opaque handle that the shuffle
/// draws randomness from.
#[verifier::external_type_specification]
#[verifier::external_body]
pub struct ExStdRng(rand::rngs::StdRng);

/// Relies on rand's `SliceRandom::shuffle`: it permutes the slice in place by
/// swaps (a Fisher-Yates shuffle), so the new contents hold exactly the old
/// elements, rearranged.
#[verifier::external_body]
fn shuffle_in_place(order: &mut Vec<usize>, rng: &mut rand::rngs::StdRng)
    ensures
        final(order)@.len() == old(order)@.len(),
        final(order)@.to_multiset() == old(order)@.to_multiset(),
{
    order.shuffle(rng)
}

/// Finds the position of `song` in `order`.
fn position_of(order: &Vec<usize>, song: usize) -> (pos: usize)
    requires
        order@.contains(song),
    ensures
        pos < order@.len(),
        order@[pos as int] == song,
{
    let n = order.len();
    let mut k: usize = 0;
    while k < n
        invariant
            k <= n,
            n == order@.len(),
            order@.contains(song),
            forall|j: int| 0 <= j < k ==> order@[j] != song,
        decreases n - k,
    {
        if order[k] == song {
            return k;
        }
        k = k + 1;
    }
    proof {
        let w = choose|w: int| 0 <= w < order@.len() && order@[w] == song;
        assert(false);
    }
    0
}

impl Playlist {
    /// Builds a playlist over `songs` in identity play order with no current
    /// item; an empty list is rejected as the absent playlist.
    pub fn new(songs: Vec<String>) -> (r: Option<Playlist>)
        ensures
            r is Some <==> songs@.len() > 0,
            r matches Some(p) ==> wf(p@) && p@ == init_view(songs.deep_view()),
    {
        if songs.is_empty() {
            return None;
        }
        let order = identity_vec(songs.len());
        let p = Playlist { songs, order, current_song: None, current_order: None };
        proof {
            lemma_identity_order_wf(p.songs@.len() as nat);
            assert(p@ =~= init_view(p.songs.deep_view()));
        }
        Some(p)
    }

    /// Builds a playlist from a newline-delimited text, one item identifier
    /// per non-empty line, in order; a text without such lines is rejected.
    /// The result is exactly what `new` gives on the list of those lines.
    pub fn from_line_delimited_string(files_str: &str) -> (r: Option<Playlist>)
        ensures
            r is Some <==> split_lines(files_str@).len() > 0,
            r matches Some(p) ==> wf(p@) && p@ == init_view(split_lines(files_str@)),
    {
        let songs = split_into_lines(files_str);
        Playlist::new(songs)
    }

    /// Builds a playlist from the files a directory scan found, sorted into
    /// lexicographic order; an empty scan is rejected.
    pub fn from_directory(files: Vec<String>) -> (r: Option<Playlist>)
        ensures
            r is Some <==> files@.len() > 0,
            r matches Some(p) ==> wf(p@),
            r matches Some(p) ==> sorted_lex(p@.songs),
            r matches Some(p) ==> p@.songs.to_multiset() == files.deep_view().to_multiset(),
            r matches Some(p) ==> p@ == init_view(p@.songs),
    {
        let sorted = sort_strings(files);
        Playlist::new(sorted)
    }

    /// The item identifier of the current item, or nothing when the cursor is
    /// unset.
    pub fn current(&self) -> (r: Option<&str>)
        requires
            wf(self@),
        ensures
            r is Some <==> self@.song is Some,
            r matches Some(s) ==> current_of(self@) == Some(s@),
    {
        match self.current_song {
            None => None,
            Some(cs) => {
                proof {
                    assert(self@.songs[cs as int] == self.songs@[cs as int]@);
                }
                Some(self.songs[cs].as_str())
            },
        }
    }

    /// Moves the cursor one position back in play order; at position 0 the
    /// cursor becomes unset (the start-of-playlist sentinel), and from the
    /// sentinel it stays unset.
    pub fn prev(&mut self)
        requires
            wf(old(self)@),
        ensures
            wf(final(self)@),
            final(self)@ == step_prev(old(self)@),
    {
        if let Some(ord) = self.current_order {
            if ord == 0 {
                self.current_order = None;
                self.current_song = None;
            } else {
                self.current_order = Some(ord - 1);
                self.current_song = Some(self.order[ord - 1]);
            }
        }
        proof {
            assert(self@ =~= step_prev(old(self)@));
        }
    }

    /// Moves the cursor one position forward in play order; at the last
    /// position the cursor becomes unset (the end-of-playlist sentinel), and
    /// from the sentinel it stays unset.
    pub fn next(&mut self)
        requires
            wf(old(self)@),
        ensures
            wf(final(self)@),
            final(self)@ == step_next(old(self)@),
    {
        if let Some(ord) = self.current_order {
            if ord + 1 >= self.songs.len() {
                self.current_order = None;
                self.current_song = None;
            } else {
                self.current_order = Some(ord + 1);
                self.current_song = Some(self.order[ord + 1]);
            }
        }
        proof {
            assert(self@ =~= step_next(old(self)@));
        }
    }

    /// Sets the cursor to play-order position 0.
    pub fn first(&mut self)
        requires
            wf(old(self)@),
        ensures
            wf(final(self)@),
            final(self)@ == step_first(old(self)@),
    {
        self.current_order = Some(0);
        self.current_song = Some(self.order[0]);
        proof {
            assert(self@ =~= step_first(old(self)@));
        }
    }

    /// Sets the cursor to the last play-order position.
    pub fn last(&mut self)
        requires
            wf(old(self)@),
        ensures
            wf(final(self)@),
            final(self)@ == step_last(old(self)@),
    {
        let end = self.songs.len() - 1;
        self.current_order = Some(end);
        self.current_song = Some(self.order[end]);
        proof {
            assert(self@ =~= step_last(old(self)@));
        }
    }

    /// Restores the identity play order without changing what is playing: the
    /// cursor moves to the current song index, which is that song's position
    /// under the identity permutation; an unset cursor stays unset.
    pub fn playlist_order(&mut self)
        requires
            wf(old(self)@),
        ensures
            wf(final(self)@),
            final(self)@ == step_playlist_order(old(self)@),
            current_of(final(self)@) == current_of(old(self)@),
    {
        self.order = identity_vec(self.songs.len());
        self.current_order = self.current_song;
        proof {
            lemma_identity_order_wf(self.songs@.len() as nat);
            assert(self@ =~= step_playlist_order(old(self)@));
        }
    }

    /// Replaces the play order by a random permutation drawn from `rng`,
    /// without changing what is playing: if a current item is set, its new
    /// position in the shuffled order becomes the cursor -- the lookup always
    /// succeeds, since each song index appears exactly once in the play
    /// order. With no current item the cursor stays unset. Only the order of
    /// what follows changes.
    pub fn shuffle(&mut self, rng: &mut rand::rngs::StdRng)
        requires
            wf(old(self)@),
        ensures
            wf(final(self)@),
            final(self)@.songs == old(self)@.songs,
            final(self)@.order.to_multiset() == old(self)@.order.to_multiset(),
            final(self)@.song == old(self)@.song,
            final(self)@.cursor is Some <==> old(self)@.cursor is Some,
            current_of(final(self)@) == current_of(old(self)@),
    {
        let ghost oldorder = self.order@;
        shuffle_in_place(&mut self.order, rng);
        proof {
            lemma_rearranged_permutation(oldorder, self.order@, self.songs.deep_view().len());
        }
        if let Some(song) = self.current_song {
            proof {
                broadcast use vstd::seq_lib::group_to_multiset_ensures;

                let p = old(self)@.cursor->0;
                assert(oldorder[p as int] == song);
                assert(oldorder.contains(song));
                assert(self.order@.to_multiset().count(song) > 0);
                assert(self.order@.contains(song));
            }
            let pos = position_of(&self.order, song);
            self.current_order = Some(pos);
        }
    }
}

/// The state reached after `k` calls of `next`.
pub open spec fn iterate_next(s: PlaylistView, k: nat) -> PlaylistView
    decreases k,
{
    if k == 0 {
        s
    } else {
        step_next(iterate_next(s, (k - 1) as nat))
    }
}

/// The state reached after `k` calls of `prev`.
pub open spec fn iterate_prev(s: PlaylistView, k: nat) -> PlaylistView
    decreases k,
{
    if k == 0 {
        s
    } else {
        step_prev(iterate_prev(s, (k - 1) as nat))
    }
}

/// End-of-playlist sentinel: from any well-formed state, after `first` and
/// then `k` calls of `next` the cursor stands at play-order position `k` on
/// song index `order[k]` -- so the first N states visit the song indices in
/// play order, each exactly once, the play order being a permutation -- and
/// the N-th call of `next` leaves the cursor unset.
pub proof fn lemma_end_sentinel(s: PlaylistView, k: nat)
    requires
        wf(s),
        s.cursor is None,
        k <= s.order.len(),
    ensures
        s.order.no_duplicates(),
        forall|j: usize| j < s.order.len() ==> #[trigger] s.order.contains(j),
        wf(iterate_next(step_first(s), k)),
        iterate_next(step_first(s), k).songs == s.songs,
        iterate_next(step_first(s), k).order == s.order,
        k < s.order.len() ==> iterate_next(step_first(s), k).cursor == Some(k as usize)
            && iterate_next(step_first(s), k).song == Some(s.order[k as int]),
        k == s.order.len() ==> iterate_next(step_first(s), k).cursor is None && iterate_next(
            step_first(s),
            k,
        ).song is None,
    decreases k,
{
    if k > 0 {
        lemma_end_sentinel(s, (k - 1) as nat);
    }
}

/// Start-of-playlist sentinel, the mirror image: from any well-formed state,
/// after `last` and then `k` calls of `prev` the cursor stands at play-order
/// position `N - 1 - k` on song index `order[N - 1 - k]` -- so the first N
/// states visit the song indices in reverse play order, each exactly once --
/// and the N-th call of `prev` leaves the cursor unset.
pub proof fn lemma_start_sentinel(s: PlaylistView, k: nat)
    requires
        wf(s),
        s.cursor is None,
        k <= s.order.len(),
    ensures
        s.order.no_duplicates(),
        forall|j: usize| j < s.order.len() ==> #[trigger] s.order.contains(j),
        wf(iterate_prev(step_last(s), k)),
        iterate_prev(step_last(s), k).songs == s.songs,
        iterate_prev(step_last(s), k).order == s.order,
        k < s.order.len() ==> iterate_prev(step_last(s), k).cursor == Some(
            (s.order.len() - 1 - k) as usize,
        ) && iterate_prev(step_last(s), k).song == Some(s.order[s.order.len() - 1 - k]),
        k == s.order.len() ==> iterate_prev(step_last(s), k).cursor is None && iterate_prev(
            step_last(s),
            k,
        ).song is None,
    decreases k,
{
    if k > 0 {
        lemma_start_sentinel(s, (k - 1) as nat);
    }
}

} // verus!
