use vstd::prelude::*;

use crate::router::location::{
    absolute_path, href_of, location_of, normalize_absolute_path_of, normalize_onto, normalize_step,
    path_segments_of, resolve_of, resolve_path_of, split_once_non_empty_of, split_suffix_of,
    starts_with_char, suffix_start, LocationView,
};
use crate::router::matches::{climb, resolve_from_of, saturating_pred, RouteMatchView};
use crate::text::{
    index_of, join_with, last_index_of, lemma_index_of, lemma_index_of_is, lemma_last_index_of,
    lemma_split_chars_nonempty, non_empty, split_chars,
};

verus! {

/// Whether `c` occurs nowhere in `s`.
pub open spec fn free_of(s: Seq<char>, c: char) -> bool {
    forall|k: int| 0 <= k < s.len() ==> s[k] != c
}

/// A segment of a normalised path: not empty, neither `.` nor `..`, and free of `/`, `?`
/// and `#`.
pub open spec fn plain_segment(seg: Seq<char>) -> bool {
    &&& seg.len() > 0
    &&& seg != seq!['.']
    &&& seg != seq!['.', '.']
    &&& free_of(seg, '/')
    &&& free_of(seg, '?')
    &&& free_of(seg, '#')
}

/// Whether every segment is plain.
pub open spec fn all_plain(segs: Seq<Seq<char>>) -> bool {
    forall|i: int| 0 <= i < segs.len() ==> #[trigger] plain_segment(segs[i])
}

/// Whether a location has the shape every `Location` keeps: its path is `/` followed by
/// plain segments joined with `/`, and a query or fragment, where present, is not empty.
pub open spec fn location_shape(l: LocationView) -> bool {
    &&& exists|segs: Seq<Seq<char>>| all_plain(segs) && l.path == #[trigger] absolute_path(segs)
    &&& l.query matches Some(q) ==> q.len() > 0
    &&& l.fragment matches Some(f) ==> f.len() > 0
}

/// Whether a location is in the form `Location::new` gives: its shape, with a query that
/// holds no `#`.
pub open spec fn normal_location(l: LocationView) -> bool {
    &&& location_shape(l)
    &&& l.query matches Some(q) ==> free_of(q, '#')
}

/// The root location `/` has the shape of a location.
pub proof fn lemma_root_shape()
    ensures
        location_shape(LocationView { path: seq!['/'], query: None, fragment: None }),
{
    let segs = Seq::<Seq<char>>::empty();
    assert(absolute_path(segs) =~= seq!['/']);
    assert(all_plain(segs));
}

proof fn lemma_split_pieces_free(s: Seq<char>, d: char, c: char)
    requires
        free_of(s, c) || c == d,
    ensures
        forall|i: int| 0 <= i < split_chars(s, d).len() ==> free_of(#[trigger] split_chars(s, d)[i], c),
    decreases s.len(),
{
    if s.len() > 0 {
        let prev = split_chars(s.drop_last(), d);
        lemma_split_pieces_free(s.drop_last(), d, c);
        lemma_split_chars_nonempty(s.drop_last(), d);
        let r = split_chars(s, d);
        if s.last() != d {
            assert(s.last() != c) by {
                if c != d {
                    assert(s[s.len() - 1] != c);
                }
            }
            assert forall|i: int| 0 <= i < r.len() implies free_of(#[trigger] r[i], c) by {
                if i < r.len() - 1 {
                    assert(r[i] == prev[i]);
                } else {
                    assert(r[i] == prev.last().push(s.last()));
                    assert(free_of(prev[prev.len() - 1], c));
                }
            }
        } else {
            assert forall|i: int| 0 <= i < r.len() implies free_of(#[trigger] r[i], c) by {
                if i < r.len() - 1 {
                    assert(r[i] == prev[i]);
                }
            }
        }
    }
}

proof fn lemma_normalize_onto_plain(stack: Seq<Seq<char>>, pieces: Seq<Seq<char>>)
    requires
        all_plain(stack),
        forall|i: int|
            0 <= i < pieces.len() ==> free_of(#[trigger] pieces[i], '/') && free_of(pieces[i], '?')
                && free_of(pieces[i], '#'),
    ensures
        all_plain(normalize_onto(stack, pieces)),
    decreases pieces.len(),
{
    if pieces.len() > 0 {
        lemma_normalize_onto_plain(stack, pieces.drop_last());
        let before = normalize_onto(stack, pieces.drop_last());
        let piece = pieces.last();
        assert(free_of(pieces[pieces.len() - 1], '/'));
        let after = normalize_step(before, piece);
        assert forall|i: int| 0 <= i < after.len() implies #[trigger] plain_segment(after[i]) by {
            if i < before.len() {
                assert(after[i] == before[i]);
            }
        }
    }
}

/// Splitting `a` followed by a run `b` free of the separator extends the last piece of `a`.
proof fn lemma_split_append_free(a: Seq<char>, b: Seq<char>, d: char)
    requires
        free_of(b, d),
    ensures
        split_chars(a + b, d) == split_chars(a, d).drop_last().push(split_chars(a, d).last() + b),
    decreases b.len(),
{
    lemma_split_chars_nonempty(a, d);
    let sa = split_chars(a, d);
    if b.len() == 0 {
        assert(a + b =~= a);
        assert(sa.last() + b =~= sa.last());
        assert(sa.drop_last().push(sa.last()) =~= sa);
    } else {
        lemma_split_append_free(a, b.drop_last(), d);
        let ab = a + b;
        assert(ab.drop_last() =~= a + b.drop_last());
        assert(ab.last() == b.last());
        assert(b[b.len() - 1] != d);
        let prev = split_chars(ab.drop_last(), d);
        assert(prev.drop_last() =~= sa.drop_last());
        assert(prev.last() == sa.last() + b.drop_last());
        assert(prev.last().push(b.last()) =~= sa.last() + b);
    }
}

/// An absolute path of plain segments splits at `/` into an empty piece and the segments.
proof fn lemma_split_absolute_path(segs: Seq<Seq<char>>)
    requires
        all_plain(segs),
        segs.len() > 0,
    ensures
        split_chars(absolute_path(segs), '/') == seq![Seq::<char>::empty()] + segs,
    decreases segs.len(),
{
    let slash = seq!['/'];
    lemma_split_slash();
    if segs.len() == 1 {
        assert(plain_segment(segs[0]));
        assert(join_with(segs, '/') == segs[0]);
        lemma_split_append_free(slash, segs[0], '/');
        assert(seq![Seq::<char>::empty()] + segs =~= seq![Seq::<char>::empty(), segs[0]]);
        assert(Seq::<char>::empty() + segs[0] =~= segs[0]);
    } else {
        let rest = segs.drop_last();
        let last = segs.last();
        assert(plain_segment(segs[segs.len() - 1]));
        assert(all_plain(rest)) by {
            assert forall|i: int| 0 <= i < rest.len() implies #[trigger] plain_segment(rest[i]) by {
                assert(rest[i] == segs[i]);
            }
        }
        lemma_split_absolute_path(rest);
        let a = absolute_path(rest);
        assert(absolute_path(segs) =~= a.push('/') + last);
        lemma_split_append_free(a.push('/'), last, '/');
        assert(a.push('/').drop_last() =~= a);
        assert(split_chars(a.push('/'), '/') == split_chars(a, '/').push(Seq::<char>::empty()));
        assert(Seq::<char>::empty() + last =~= last);
        assert(seq![Seq::<char>::empty()] + segs =~= (seq![Seq::<char>::empty()] + rest).push(last));
        assert(split_chars(a, '/').push(Seq::<char>::empty()).drop_last() =~= split_chars(a, '/'));
    }
}

proof fn lemma_split_slash()
    ensures
        split_chars(seq!['/'], '/') == seq![Seq::<char>::empty(), Seq::<char>::empty()],
{
    let slash = seq!['/'];
    assert(slash.drop_last() =~= Seq::<char>::empty());
    assert(split_chars(Seq::<char>::empty(), '/') == seq![Seq::<char>::empty()]);
    assert(slash.last() == '/');
    assert(seq![Seq::<char>::empty()].push(Seq::<char>::empty()) =~= seq![
        Seq::<char>::empty(),
        Seq::<char>::empty(),
    ]);
}

proof fn lemma_normalize_blank_pieces()
    ensures
        normalize_onto(Seq::empty(), seq![Seq::<char>::empty()]) == Seq::<Seq<char>>::empty(),
        normalize_onto(Seq::empty(), seq![Seq::<char>::empty(), Seq::<char>::empty()])
            == Seq::<Seq<char>>::empty(),
{
    let e = seq![Seq::<char>::empty()];
    let ee = seq![Seq::<char>::empty(), Seq::<char>::empty()];
    assert(e.drop_last() =~= Seq::<Seq<char>>::empty());
    assert(normalize_onto(Seq::<Seq<char>>::empty(), Seq::<Seq<char>>::empty()) == Seq::<Seq<char>>::empty());
    assert(e.last() == Seq::<char>::empty());
    assert(normalize_step(Seq::<Seq<char>>::empty(), Seq::<char>::empty()) == Seq::<Seq<char>>::empty());
    assert(normalize_onto(Seq::empty(), e) == Seq::<Seq<char>>::empty());
    assert(ee.drop_last() =~= e);
    assert(ee.last() == Seq::<char>::empty());
}

proof fn lemma_normalize_plain(segs: Seq<Seq<char>>)
    requires
        all_plain(segs),
    ensures
        normalize_onto(Seq::empty(), seq![Seq::<char>::empty()] + segs) == segs,
    decreases segs.len(),
{
    let e = seq![Seq::<char>::empty()];
    lemma_normalize_blank_pieces();
    if segs.len() == 0 {
        assert(e + segs =~= e);
        assert(normalize_onto(Seq::empty(), e + segs) =~= segs);
    } else {
        let rest = segs.drop_last();
        assert(all_plain(rest)) by {
            assert forall|i: int| 0 <= i < rest.len() implies #[trigger] plain_segment(rest[i]) by {
                assert(rest[i] == segs[i]);
            }
        }
        lemma_normalize_plain(rest);
        assert((e + segs).drop_last() =~= e + rest);
        assert((e + segs).last() == segs.last());
        assert(plain_segment(segs[segs.len() - 1]));
        assert(normalize_step(rest, segs.last()) == rest.push(segs.last()));
        assert(rest.push(segs.last()) =~= segs);
        assert(normalize_onto(Seq::empty(), e + segs) == normalize_step(
            normalize_onto(Seq::empty(), e + rest),
            segs.last(),
        ));
    }
}

/// Normalising a normalised path changes nothing.
proof fn lemma_normalize_idempotent(segs: Seq<Seq<char>>)
    requires
        all_plain(segs),
    ensures
        normalize_absolute_path_of(absolute_path(segs)) == absolute_path(segs),
{
    if segs.len() == 0 {
        let slash = seq!['/'];
        assert(absolute_path(segs) =~= slash);
        lemma_split_slash();
        lemma_normalize_blank_pieces();
        assert(normalize_onto(Seq::empty(), split_chars(slash, '/')) =~= segs);
    } else {
        lemma_split_absolute_path(segs);
        lemma_normalize_plain(segs);
    }
}

proof fn lemma_join_free(segs: Seq<Seq<char>>, c: char)
    requires
        c != '/',
        forall|i: int| 0 <= i < segs.len() ==> free_of(#[trigger] segs[i], c),
    ensures
        free_of(join_with(segs, '/'), c),
    decreases segs.len(),
{
    if segs.len() > 1 {
        lemma_join_free(segs.drop_last(), c);
        assert(free_of(segs[segs.len() - 1], c));
        let j = join_with(segs.drop_last(), '/').push('/');
        assert forall|k: int| 0 <= k < (j + segs.last()).len() implies (j + segs.last())[k] != c by {
            if k >= j.len() {
                assert((j + segs.last())[k] == segs.last()[k - j.len()]);
            }
        }
    } else if segs.len() == 1 {
        assert(free_of(segs[0], c));
    }
}

proof fn lemma_absolute_path_free(segs: Seq<Seq<char>>)
    requires
        all_plain(segs),
    ensures
        free_of(absolute_path(segs), '?'),
        free_of(absolute_path(segs), '#'),
        absolute_path(segs).len() > 0,
        absolute_path(segs)[0] == '/',
{
    assert forall|i: int| 0 <= i < segs.len() implies free_of(#[trigger] segs[i], '?') && free_of(
        segs[i],
        '#',
    ) by {
        assert(plain_segment(segs[i]));
    }
    lemma_join_free(segs, '?');
    lemma_join_free(segs, '#');
    let j = join_with(segs, '/');
    assert forall|k: int| 0 <= k < absolute_path(segs).len() implies absolute_path(segs)[k] != '?'
        && absolute_path(segs)[k] != '#' by {
        if k > 0 {
            assert(absolute_path(segs)[k] == j[k - 1]);
        }
    }
}

/// The first `c` in `a + b`, where `a` holds none, is the first in `b`, shifted.
proof fn lemma_index_of_after_free(a: Seq<char>, b: Seq<char>, c: char)
    requires
        free_of(a, c),
    ensures
        index_of(a + b, c) == match index_of(b, c) {
            Some(i) => Some(a.len() + i),
            None => None::<int>,
        },
{
    lemma_index_of(b, c);
    let s = a + b;
    match index_of(b, c) {
        Some(i) => {
            assert forall|j: int| 0 <= j < a.len() + i implies s[j] != c by {
                if j >= a.len() {
                    assert(s[j] == b[j - a.len()]);
                }
            }
            assert(s[a.len() + i] == b[i]);
            lemma_index_of_is(s, c, a.len() + i);
        },
        None => {
            assert forall|j: int| 0 <= j < s.len() implies s[j] != c by {
                if j >= a.len() {
                    assert(s[j] == b[j - a.len()]);
                }
            }
            lemma_index_of_is(s, c, s.len() as int);
        },
    }
}

proof fn lemma_split_once_before_free(a: Seq<char>, b: Seq<char>, c: char)
    requires
        free_of(a, c),
        b.len() > 0,
        b[0] == c,
    ensures
        split_once_non_empty_of(a + b, c) == (a, if b.len() > 1 {
            Some(b.skip(1))
        } else {
            None::<Seq<char>>
        }),
{
    lemma_index_of_after_free(a, b, c);
    lemma_index_of_is(b, c, 0);
    assert((a + b).take(a.len() as int) =~= a);
    assert((a + b).skip(a.len() + 1int) =~= b.skip(1));
}

proof fn lemma_split_once_free(a: Seq<char>, c: char)
    requires
        free_of(a, c),
    ensures
        split_once_non_empty_of(a, c) == (a, None::<Seq<char>>),
{
    lemma_index_of_is(a, c, a.len() as int);
}

/// Every location that `Location::new` gives is in normal form.
pub proof fn lemma_location_of_normal(target: Seq<char>)
    ensures
        normal_location(location_of(target)),
{
    let (without_fragment, fragment) = split_once_non_empty_of(target, '#');
    let (path, query) = split_once_non_empty_of(without_fragment, '?');
    lemma_index_of(target, '#');
    lemma_index_of(without_fragment, '?');
    assert(free_of(without_fragment, '#'));
    assert(free_of(path, '#'));
    assert(free_of(path, '?'));
    match query {
        Some(q) => {
            let i = index_of(without_fragment, '?')->0;
            assert(q == without_fragment.skip(i + 1));
            assert forall|k: int| 0 <= k < q.len() implies q[k] != '#' by {
                assert(q[k] == without_fragment[i + 1 + k]);
            }
        },
        None => {},
    }
    lemma_split_pieces_free(path, '/', '/');
    lemma_split_pieces_free(path, '/', '?');
    lemma_split_pieces_free(path, '/', '#');
    let segs = normalize_onto(Seq::empty(), split_chars(path, '/'));
    lemma_normalize_onto_plain(Seq::empty(), split_chars(path, '/'));
    assert(location_of(target).path == absolute_path(segs));
}

/// `Location::new` normalises: the path it gives is `/` followed by segments that are
/// neither empty, `.` nor `..` and hold no `/`, an empty query or fragment is dropped, and
/// building a location again from its `href` gives the same location.
pub proof fn law_new_location_is_normal(target: Seq<char>)
    ensures
        normal_location(location_of(target)),
        location_of(target).path.len() > 0 && location_of(target).path[0] == '/',
        location_of(target).query != Some(Seq::<char>::empty()),
        location_of(target).fragment != Some(Seq::<char>::empty()),
        location_of(href_of(location_of(target))) == location_of(target),
{
    lemma_location_of_normal(target);
    let l = location_of(target);
    let segs = choose|segs: Seq<Seq<char>>| all_plain(segs) && l.path == #[trigger] absolute_path(segs);
    lemma_absolute_path_free(segs);
    law_href_round_trip(l);
}

/// A location in normal form comes back unchanged from its `href`.
pub proof fn law_href_round_trip(l: LocationView)
    requires
        normal_location(l),
    ensures
        location_of(href_of(l)) == l,
{
    let segs = choose|segs: Seq<Seq<char>>| all_plain(segs) && l.path == #[trigger] absolute_path(segs);
    lemma_absolute_path_free(segs);
    lemma_normalize_idempotent(segs);
    let q = match l.query {
        Some(q) => seq!['?'] + q,
        None => Seq::<char>::empty(),
    };
    let f = match l.fragment {
        Some(f) => seq!['#'] + f,
        None => Seq::<char>::empty(),
    };
    let w = l.path + q;
    assert(free_of(w, '#')) by {
        assert forall|k: int| 0 <= k < w.len() implies w[k] != '#' by {
            if k >= l.path.len() + 1 {
                assert(w[k] == l.query->0[k - l.path.len() - 1]);
            }
        }
    }
    assert(href_of(l) == w + f);
    match l.fragment {
        Some(fr) => {
            lemma_split_once_before_free(w, f, '#');
            assert(f.skip(1) =~= fr);
        },
        None => {
            assert(w + f =~= w);
            lemma_split_once_free(w, '#');
        },
    }
    match l.query {
        Some(qu) => {
            lemma_split_once_before_free(l.path, q, '?');
            assert(q.skip(1) =~= qu);
        },
        None => {
            assert(w =~= l.path);
            lemma_split_once_free(l.path, '?');
        },
    }
}

/// Following a target from a location: an absolute target is a new location; a `?`
/// target keeps the path; a `#` target keeps the path and the query and sets the fragment
/// to what follows the `#`, if anything does, as long as the query holds no `#` (a query
/// set by hand may, and the `#` target then splits it).
pub proof fn law_resolve_keeps_what_the_target_leaves(l: LocationView, target: Seq<char>)
    requires
        location_shape(l),
    ensures
        starts_with_char(target, '/') ==> resolve_of(l, target) == location_of(target),
        starts_with_char(target, '?') ==> resolve_of(l, target).path == l.path,
        starts_with_char(target, '#') && normal_location(l) ==> {
            &&& resolve_of(l, target).path == l.path
            &&& resolve_of(l, target).query == l.query
            &&& resolve_of(l, target).fragment == (if target.len() > 1 {
                Some(target.skip(1))
            } else {
                None::<Seq<char>>
            })
        },
{
    let segs = choose|segs: Seq<Seq<char>>| all_plain(segs) && l.path == #[trigger] absolute_path(segs);
    lemma_absolute_path_free(segs);
    lemma_normalize_idempotent(segs);
    if starts_with_char(target, '?') {
        let h = l.path + target;
        lemma_index_of_after_free(l.path, target, '#');
        lemma_index_of(target, '#');
        let (without_fragment, fragment) = split_once_non_empty_of(h, '#');
        let rest = match index_of(target, '#') {
            Some(j) => target.take(j),
            None => target,
        };
        assert(without_fragment =~= l.path + rest);
        assert(rest.len() > 0 && rest[0] == '?');
        lemma_split_once_before_free(l.path, rest, '?');
    } else if starts_with_char(target, '#') && normal_location(l) {
        let q = match l.query {
            Some(q) => seq!['?'] + q,
            None => Seq::<char>::empty(),
        };
        let w = l.path + q;
        assert(free_of(w, '#')) by {
            assert forall|k: int| 0 <= k < w.len() implies w[k] != '#' by {
                if k >= l.path.len() + 1 {
                    assert(w[k] == l.query->0[k - l.path.len() - 1]);
                }
            }
        }
        lemma_split_once_before_free(w, target, '#');
        match l.query {
            Some(qu) => {
                lemma_split_once_before_free(l.path, q, '?');
                assert(q.skip(1) =~= qu);
            },
            None => {
                assert(w =~= l.path);
                lemma_split_once_free(l.path, '?');
            },
        }
    }
}

proof fn lemma_normalize_onto_free(stack: Seq<Seq<char>>, pieces: Seq<Seq<char>>, c: char)
    requires
        forall|i: int| 0 <= i < stack.len() ==> free_of(#[trigger] stack[i], c),
        forall|i: int| 0 <= i < pieces.len() ==> free_of(#[trigger] pieces[i], c),
    ensures
        forall|i: int| 0 <= i < normalize_onto(stack, pieces).len() ==> free_of(#[trigger] normalize_onto(stack, pieces)[i], c),
    decreases pieces.len(),
{
    if pieces.len() > 0 {
        assert forall|i: int| 0 <= i < pieces.drop_last().len() implies free_of(#[trigger] pieces.drop_last()[i], c) by {
            assert(pieces.drop_last()[i] == pieces[i]);
        }
        lemma_normalize_onto_free(stack, pieces.drop_last(), c);
        let before = normalize_onto(stack, pieces.drop_last());
        let after = normalize_onto(stack, pieces);
        assert(free_of(pieces[pieces.len() - 1], c));
        assert forall|i: int| 0 <= i < after.len() implies free_of(#[trigger] after[i], c) by {
            if i < before.len() {
                assert(after[i] == before[i]);
            }
        }
    }
}

proof fn lemma_non_empty_free(pieces: Seq<Seq<char>>, c: char)
    requires
        forall|i: int| 0 <= i < pieces.len() ==> free_of(#[trigger] pieces[i], c),
    ensures
        forall|i: int| 0 <= i < non_empty(pieces).len() ==> free_of(#[trigger] non_empty(pieces)[i], c),
    decreases pieces.len(),
{
    if pieces.len() > 0 {
        assert forall|i: int| 0 <= i < pieces.drop_last().len() implies free_of(#[trigger] pieces.drop_last()[i], c) by {
            assert(pieces.drop_last()[i] == pieces[i]);
        }
        lemma_non_empty_free(pieces.drop_last(), c);
        assert(free_of(pieces[pieces.len() - 1], c));
        let rest = non_empty(pieces.drop_last());
        let all = non_empty(pieces);
        assert forall|i: int| 0 <= i < all.len() implies free_of(#[trigger] all[i], c) by {
            if i < rest.len() {
                assert(all[i] == rest[i]);
            }
        }
    }
}

proof fn lemma_prefix_free(s: Seq<char>, n: int, c: char)
    requires
        free_of(s, c),
        0 <= n <= s.len(),
    ensures
        free_of(s.take(n), c),
{
    assert forall|k: int| 0 <= k < s.take(n).len() implies s.take(n)[k] != c by {
        assert(s.take(n)[k] == s[k]);
    }
}

/// The path that `resolve_path_of` builds from a base free of `c` (`?` or `#`) is free of it.
proof fn lemma_resolved_path_free(base: Seq<char>, target_path: Seq<char>, c: char)
    requires
        c != '/',
        free_of(base, c),
        free_of(target_path, c),
    ensures
        free_of(absolute_path(normalize_onto(path_segments_of(base), split_chars(target_path, '/'))), c),
        free_of(absolute_path(normalize_onto(path_segments_of(base), split_chars(target_path, '/'))).push('/'), c),
{
    lemma_split_pieces_free(base, '/', c);
    lemma_non_empty_free(split_chars(base, '/'), c);
    lemma_split_pieces_free(target_path, '/', c);
    let segs = normalize_onto(path_segments_of(base), split_chars(target_path, '/'));
    lemma_normalize_onto_free(path_segments_of(base), split_chars(target_path, '/'), c);
    lemma_join_free(segs, c);
    let j = join_with(segs, '/');
    let a = absolute_path(segs);
    assert forall|k: int| 0 <= k < a.len() implies a[k] != c by {
        if k > 0 {
            assert(a[k] == j[k - 1]);
        }
    }
    assert forall|k: int| 0 <= k < a.push('/').len() implies a.push('/')[k] != c by {
        if k < a.len() {
            assert(a.push('/')[k] == a[k]);
        }
    }
}

/// Splitting `x` followed by `s` at the first `c`, where `x` holds none, splits `s`.
proof fn lemma_split_once_after_free(x: Seq<char>, s: Seq<char>, c: char)
    requires
        free_of(x, c),
    ensures
        split_once_non_empty_of(x + s, c) == (x + split_once_non_empty_of(s, c).0, split_once_non_empty_of(s, c).1),
{
    lemma_index_of_after_free(x, s, c);
    match index_of(s, c) {
        Some(i) => {
            lemma_index_of(s, c);
            assert((x + s).take(x.len() + i) =~= x + s.take(i));
            assert((x + s).skip(x.len() + i + 1) =~= s.skip(i + 1));
        },
        None => {},
    }
}

/// The query and fragment of the location `x + s` named, where `x` holds no `?` or `#`,
/// depend on `s` alone.
proof fn lemma_location_suffix(x: Seq<char>, y: Seq<char>, s: Seq<char>)
    requires
        free_of(x, '?'),
        free_of(x, '#'),
        free_of(y, '?'),
        free_of(y, '#'),
    ensures
        location_of(x + s).query == location_of(y + s).query,
        location_of(x + s).fragment == location_of(y + s).fragment,
{
    lemma_split_once_after_free(x, s, '#');
    lemma_split_once_after_free(y, s, '#');
    let w = split_once_non_empty_of(s, '#').0;
    lemma_split_once_after_free(x, w, '?');
    lemma_split_once_after_free(y, w, '?');
}

/// A target split at its first `?` or `#` has a path part free of both.
proof fn lemma_split_suffix_free(target: Seq<char>)
    ensures
        free_of(split_suffix_of(target).0, '?'),
        free_of(split_suffix_of(target).0, '#'),
        split_suffix_of(target).0 + split_suffix_of(target).1 == target,
{
    lemma_index_of(target, '?');
    lemma_index_of(target, '#');
    match suffix_start(target) {
        Some(i) => {
            assert(target.take(i) + target.skip(i) =~= target);
            assert forall|k: int| 0 <= k < target.take(i).len() implies target.take(i)[k] != '?' && target.take(i)[k] != '#' by {
                assert(target.take(i)[k] == target[k]);
            }
        },
        None => {
            assert(target + Seq::<char>::empty() =~= target);
        },
    }
}

/// Resolving a relative target against a base free of `?` and `#` keeps what follows
/// the target's path: the location reached has the target's query and fragment.
pub proof fn law_resolve_path_keeps_query_and_fragment(base: Seq<char>, target: Seq<char>)
    requires
        free_of(base, '?'),
        free_of(base, '#'),
    ensures
        location_of(resolve_path_of(base, target)).query == location_of(target).query,
        location_of(resolve_path_of(base, target)).fragment == location_of(target).fragment,
{
    let (tp, suffix) = split_suffix_of(target);
    lemma_split_suffix_free(target);
    lemma_resolved_path_free(base, tp, '?');
    lemma_resolved_path_free(base, tp, '#');
    let path = absolute_path(normalize_onto(path_segments_of(base), split_chars(tp, '/')));
    let path = if path.len() > 1 && tp.len() > 0 && tp.last() == '/' {
        path.push('/')
    } else {
        path
    };
    assert(resolve_path_of(base, target) == path + suffix);
    lemma_location_suffix(path, tp, suffix);
}

/// Following a relative target from a location keeps the target's query and fragment,
/// whatever the `..` and `.` steps of its path do; so does an absolute one.
pub proof fn law_relative_target_keeps_query_and_fragment(l: LocationView, target: Seq<char>)
    requires
        location_shape(l),
        !starts_with_char(target, '?'),
        !starts_with_char(target, '#'),
    ensures
        resolve_of(l, target).query == location_of(target).query,
        resolve_of(l, target).fragment == location_of(target).fragment,
{
    if !starts_with_char(target, '/') {
        let segs = choose|segs: Seq<Seq<char>>| all_plain(segs) && l.path == #[trigger] absolute_path(segs);
        lemma_absolute_path_free(segs);
        lemma_last_index_of(l.path, '/');
        let base = match last_index_of(l.path, '/') {
            Some(i) => l.path.take(i),
            None => Seq::empty(),
        };
        match last_index_of(l.path, '/') {
            Some(i) => {
                lemma_prefix_free(l.path, i, '?');
                lemma_prefix_free(l.path, i, '#');
            },
            None => {},
        }
        law_resolve_path_keeps_query_and_fragment(base, target);
    }
}

proof fn lemma_climb_in_range(depth: int, target: Seq<char>)
    requires
        depth >= 0,
    ensures
        0 <= climb(depth, target).0 <= depth,
    decreases target.len(),
{
    if target != seq!['.', '.'] && target.len() >= 3 && target[0] == '.' && target[1] == '.' && target[2] == '/' {
        lemma_climb_in_range(if depth > 0 { depth - 1 } else { 0 }, target.skip(3));
    }
}

/// The `..` steps that `climb` strips hold no `?` or `#`.
proof fn lemma_climb_prefix(depth: int, target: Seq<char>) -> (x: Seq<char>)
    ensures
        free_of(x, '?'),
        free_of(x, '#'),
        target == x + climb(depth, target).1,
    decreases target.len(),
{
    if target == seq!['.', '.'] {
        assert(target + Seq::<char>::empty() =~= target);
        target
    } else if target.len() >= 3 && target[0] == '.' && target[1] == '.' && target[2] == '/' {
        let rest = lemma_climb_prefix(saturating_pred(depth), target.skip(3));
        let x = target.take(3) + rest;
        assert(climb(depth, target) == climb(saturating_pred(depth), target.skip(3)));
        assert(target =~= target.take(3) + target.skip(3));
        assert(target =~= x + climb(depth, target).1);
        assert forall|k: int| 0 <= k < x.len() implies x[k] != '?' && x[k] != '#' by {
            if k >= 3 {
                assert(x[k] == rest[k - 3]);
            }
        }
        x
    } else {
        assert(target =~= Seq::<char>::empty() + target);
        Seq::empty()
    }
}

/// Resolving from a matched branch whose pathnames hold no `?` or `#` keeps the target's
/// query and fragment, however many `..` steps climb the branch.
pub proof fn law_resolve_from_keeps_query_and_fragment<H>(entries: Seq<RouteMatchView<H>>, depth: int, target: Seq<char>)
    requires
        depth >= 0,
        forall|i: int|
            0 <= i < entries.len() ==> free_of(#[trigger] entries[i].pathname, '?') && free_of(entries[i].pathname, '#'),
    ensures
        resolve_from_of(entries, depth, target) matches Some(r) ==> r.query == location_of(target).query
            && r.fragment == location_of(target).fragment,
{
    if !(target.len() > 0 && target[0] == '/') && entries.len() > 0 {
        let start = if depth < entries.len() - 1 {
            depth
        } else {
            entries.len() - 1
        };
        let (d, rest) = climb(start, target);
        lemma_climb_in_range(start, target);
        let x = lemma_climb_prefix(start, target);
        assert(free_of(entries[d].pathname, '?'));
        law_resolve_path_keeps_query_and_fragment(entries[d].pathname, rest);
        lemma_location_suffix(x, Seq::empty(), rest);
        assert(Seq::<char>::empty() + rest =~= rest);
    }
}

} // verus!
