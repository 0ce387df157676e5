use vstd::prelude::*;
use vstd::utf8::*;

use crate::router::normal_form::{
    free_of, law_href_round_trip, law_relative_target_keeps_query_and_fragment,
    law_resolve_keeps_what_the_target_leaves, lemma_location_of_normal,
    location_shape, normal_location,
};
use crate::text::{
    append_chars, chars_of, find_char, find_last_char, index_of, join_pieces, join_with,
    keep_non_empty, last_index_of, lemma_index_of, non_empty, slice_chars, split_chars,
    split_pieces, string_from_utf8, string_of, views,
};

verus! {

broadcast use vstd::seq_lib::group_seq_properties;

/// The mathematical content of a `Location`.
pub struct LocationView {
    pub path: Seq<char>,
    pub query: Option<Seq<char>>,
    pub fragment: Option<Seq<char>>,
}

/// One step of path normalisation: empty pieces and `.` are dropped, `..` removes the
/// last segment, anything else is appended.
pub open spec fn normalize_step(stack: Seq<Seq<char>>, piece: Seq<char>) -> Seq<Seq<char>> {
    if piece.len() == 0 || piece == seq!['.'] {
        stack
    } else if piece == seq!['.', '.'] {
        if stack.len() > 0 {
            stack.drop_last()
        } else {
            stack
        }
    } else {
        stack.push(piece)
    }
}

/// The segments left after applying each piece, in order, to `stack`.
pub open spec fn normalize_onto(stack: Seq<Seq<char>>, pieces: Seq<Seq<char>>) -> Seq<
    Seq<char>,
>
    decreases pieces.len(),
{
    if pieces.len() == 0 {
        stack
    } else {
        normalize_step(normalize_onto(stack, pieces.drop_last()), pieces.last())
    }
}

/// `/` followed by the segments joined with `/`.
pub open spec fn absolute_path(segments: Seq<Seq<char>>) -> Seq<char> {
    seq!['/'] + join_with(segments, '/')
}

/// The non-empty `/`-separated segments of a path.
pub open spec fn path_segments_of(path: Seq<char>) -> Seq<Seq<char>> {
    non_empty(split_chars(path, '/'))
}

/// A path made absolute with `.`, `..` and repeated slashes resolved.
pub open spec fn normalize_absolute_path_of(path: Seq<char>) -> Seq<char> {
    absolute_path(normalize_onto(Seq::empty(), split_chars(path, '/')))
}

/// Splits at the first `d`; the part after it counts only when it is not empty.
pub open spec fn split_once_non_empty_of(s: Seq<char>, d: char) -> (Seq<char>, Option<Seq<char>>) {
    match index_of(s, d) {
        Some(i) => (
            s.take(i),
            if i + 1 < s.len() {
                Some(s.skip(i + 1))
            } else {
                None
            },
        ),
        None => (s, None),
    }
}

/// The location that a navigation target names.
pub open spec fn location_of(target: Seq<char>) -> LocationView {
    let (without_fragment, fragment) = split_once_non_empty_of(target, '#');
    let (path, query) = split_once_non_empty_of(without_fragment, '?');
    LocationView { path: normalize_absolute_path_of(path), query, fragment }
}

/// `path`, then `?query` and `#fragment` where present.
pub open spec fn href_of(l: LocationView) -> Seq<char> {
    l.path + match l.query {
        Some(q) => seq!['?'] + q,
        None => Seq::empty(),
    } + match l.fragment {
        Some(f) => seq!['#'] + f,
        None => Seq::empty(),
    }
}

/// The position where a query or fragment suffix starts, if any.
pub open spec fn suffix_start(target: Seq<char>) -> Option<int> {
    match (index_of(target, '?'), index_of(target, '#')) {
        (Some(q), Some(f)) => Some(if q <= f { q } else { f }),
        (Some(q), None) => Some(q),
        (None, Some(f)) => Some(f),
        (None, None) => None,
    }
}

/// A target split into its path and its `?`/`#` suffix.
pub open spec fn split_suffix_of(target: Seq<char>) -> (Seq<char>, Seq<char>) {
    match suffix_start(target) {
        Some(i) => (target.take(i), target.skip(i)),
        None => (target, Seq::empty()),
    }
}

/// `target` resolved as URL-style relative path against the segments of `base`.
pub open spec fn resolve_path_of(base: Seq<char>, target: Seq<char>) -> Seq<char> {
    let (target_path, suffix) = split_suffix_of(target);
    let path = absolute_path(normalize_onto(path_segments_of(base), split_chars(target_path, '/')));
    let path = if path.len() > 1 && target_path.len() > 0 && target_path.last() == '/' {
        path.push('/')
    } else {
        path
    };
    path + suffix
}

pub open spec fn starts_with_char(s: Seq<char>, c: char) -> bool {
    s.len() > 0 && s[0] == c
}

/// The location reached by following `target` from `l`.
pub open spec fn resolve_of(l: LocationView, target: Seq<char>) -> LocationView {
    if starts_with_char(target, '/') {
        location_of(target)
    } else if starts_with_char(target, '?') {
        location_of(l.path + target)
    } else if starts_with_char(target, '#') {
        location_of(
            l.path + match l.query {
                Some(q) => seq!['?'] + q,
                None => Seq::empty(),
            } + target,
        )
    } else {
        let base = match last_index_of(l.path, '/') {
            Some(i) => l.path.take(i),
            None => Seq::empty(),
        };
        location_of(resolve_path_of(base, target))
    }
}

pub open spec fn non_empty_option(s: Seq<char>) -> Option<Seq<char>> {
    if s.len() > 0 {
        Some(s)
    } else {
        None
    }
}

pub open spec fn option_view(o: Option<String>) -> Option<Seq<char>> {
    match o {
        Some(s) => Some(s@),
        None => None,
    }
}

/// A complete navigation target. History stores `Location`, rather than a matched
/// route identifier, so dynamic parameters and query state survive back/replace.
#[derive(Debug, PartialEq, Eq, Hash)]
pub struct Location {
    path: String,
    query: Option<String>,
    fragment: Option<String>,
}

impl View for Location {
    type V = LocationView;

    closed spec fn view(&self) -> LocationView {
        LocationView {
            path: self.path@,
            query: option_view(self.query),
            fragment: option_view(self.fragment),
        }
    }
}

impl Location {
    /// Every location has a normalised path and no empty query or fragment.
    #[verifier::type_invariant]
    spec fn shaped(self) -> bool {
        location_shape(self@)
    }
}

impl Clone for Location {
    fn clone(&self) -> (r: Location)
        ensures
            r@ == self@,
    {
        self.duplicate()
    }
}

fn copy_option(o: &Option<String>) -> (r: Option<String>)
    ensures
        option_view(r) == option_view(*o),
{
    match o {
        Some(s) => Some(s.clone()),
        None => None,
    }
}

fn option_equal(a: &Option<String>, b: &Option<String>) -> (r: bool)
    ensures
        r == (option_view(*a) == option_view(*b)),
{
    match (a, b) {
        (Some(x), Some(y)) => *x == *y,
        (None, None) => true,
        _ => false,
    }
}

fn string_option(o: Option<Vec<char>>) -> (r: Option<String>)
    ensures
        option_view(r) == match o {
            Some(v) => Some(v@),
            None => None::<Seq<char>>,
        },
{
    match o {
        Some(v) => Some(string_of(&v)),
        None => None,
    }
}

/// Applies the pieces to the segments in `stack`, in order.
fn normalize_pieces(stack: &mut Vec<Vec<char>>, pieces: &Vec<Vec<char>>)
    ensures
        views(final(stack)@) == normalize_onto(views(old(stack)@), views(pieces@)),
{
    let ghost start = views(stack@);
    let mut i: usize = 0;
    while i < pieces.len()
        invariant
            i <= pieces.len(),
            views(stack@) == normalize_onto(start, views(pieces@).take(i as int)),
        decreases pieces.len() - i,
    {
        assert(views(pieces@).take(i + 1).drop_last() =~= views(pieces@).take(i as int));
        let piece = &pieces[i];
        let ghost before = views(stack@);
        if piece.len() == 0 || (piece.len() == 1 && piece[0] == '.') {
            proof {
                if piece.len() == 1 {
                    assert(piece@ =~= seq!['.']);
                }
            }
        } else if piece.len() == 2 && piece[0] == '.' && piece[1] == '.' {
            assert(piece@ =~= seq!['.', '.']);
            if stack.len() > 0 {
                stack.pop();
                assert(views(stack@) =~= before.drop_last());
            }
        } else {
            proof {
                if piece@ == seq!['.'] {
                    assert(piece@[0] == '.');
                }
                if piece@ == seq!['.', '.'] {
                    assert(piece@[0] == '.' && piece@[1] == '.');
                }
            }
            stack.push(piece.clone());
            assert(views(stack@) =~= before.push(piece@));
        }
        i = i + 1;
    }
    assert(views(pieces@).take(i as int) =~= views(pieces@));
}

/// `/` followed by the segments joined with `/`.
fn absolute_from(segments: &Vec<Vec<char>>) -> (r: Vec<char>)
    ensures
        r@ == absolute_path(views(segments@)),
{
    let mut r: Vec<char> = Vec::new();
    r.push('/');
    let joined = join_pieces(segments, '/');
    append_chars(&mut r, &joined);
    r
}

/// The non-empty `/`-separated segments of a path.
pub fn path_segments(path: &Vec<char>) -> (r: Vec<Vec<char>>)
    ensures
        views(r@) == path_segments_of(path@),
{
    let pieces = split_pieces(path, '/');
    keep_non_empty(&pieces)
}

/// Makes a path absolute, resolving `.`, `..` and repeated slashes.
fn normalize_absolute_path(path: &Vec<char>) -> (r: Vec<char>)
    ensures
        r@ == normalize_absolute_path_of(path@),
{
    let pieces = split_pieces(path, '/');
    let mut stack: Vec<Vec<char>> = Vec::new();
    assert(views(stack@) =~= Seq::<Seq<char>>::empty());
    normalize_pieces(&mut stack, &pieces);
    absolute_from(&stack)
}

/// Splits at the first `delimiter`; the remainder is kept only when it is not empty.
fn split_once_non_empty(value: &Vec<char>, delimiter: char) -> (r: (Vec<char>, Option<Vec<char>>))
    ensures
        ({
            let (head, tail) = split_once_non_empty_of(value@, delimiter);
            &&& r.0@ == head
            &&& match r.1 {
                Some(t) => tail == Some(t@),
                None => tail is None,
            }
        }),
{
    match find_char(value, delimiter) {
        Some(i) => {
            let head = slice_chars(value, 0, i);
            let tail = if i + 1 < value.len() {
                Some(slice_chars(value, i + 1, value.len()))
            } else {
                None
            };
            proof {
                assert(value@.subrange(0, i as int) =~= value@.take(i as int));
                assert(value@.subrange(i + 1, value@.len() as int) =~= value@.skip(i + 1));
            }
            (head, tail)
        },
        None => (slice_chars(value, 0, value.len()), None),
    }
}

/// The location named by a sequence of characters.
fn location_from_chars(target: &Vec<char>) -> (r: Location)
    ensures
        r@ == location_of(target@),
{
    let (without_fragment, fragment) = split_once_non_empty(target, '#');
    let (path, query) = split_once_non_empty(&without_fragment, '?');
    let path = normalize_absolute_path(&path);
    let path = string_of(&path);
    let query = string_option(query);
    let fragment = string_option(fragment);
    proof {
        lemma_location_of_normal(target@);
    }
    Location { path, query, fragment }
}

/// Splits a target into its path and its query/fragment suffix.
fn split_suffix(target: &Vec<char>) -> (r: (Vec<char>, Vec<char>))
    ensures
        r.0@ == split_suffix_of(target@).0,
        r.1@ == split_suffix_of(target@).1,
{
    let query = find_char(target, '?');
    let fragment = find_char(target, '#');
    let split = match (query, fragment) {
        (Some(q), Some(f)) => if q <= f { q } else { f },
        (Some(q), None) => q,
        (None, Some(f)) => f,
        (None, None) => {
            return (slice_chars(target, 0, target.len()), Vec::new());
        },
    };
    proof {
        lemma_index_of(target@, '?');
        lemma_index_of(target@, '#');
        assert(target@.subrange(0, split as int) =~= target@.take(split as int));
        assert(target@.subrange(split as int, target@.len() as int) =~= target@.skip(split as int));
    }
    (slice_chars(target, 0, split), slice_chars(target, split, target.len()))
}

/// Resolves a URL-style relative `target` against the segments of `base`.
pub fn resolve_path_chars(base: &Vec<char>, target: &Vec<char>) -> (r: Vec<char>)
    ensures
        r@ == resolve_path_of(base@, target@),
{
    resolve_path(base, target)
}

fn resolve_path(base: &Vec<char>, target: &Vec<char>) -> (r: Vec<char>)
    ensures
        r@ == resolve_path_of(base@, target@),
{
    let mut segments = path_segments(base);
    let (target_path, suffix) = split_suffix(target);
    let pieces = split_pieces(&target_path, '/');
    normalize_pieces(&mut segments, &pieces);
    let mut path = absolute_from(&segments);
    if path.len() > 1 && target_path.len() > 0 && target_path[target_path.len() - 1] == '/' {
        path.push('/');
    }
    append_chars(&mut path, &suffix);
    path
}

impl Default for Location {
    /// The root location `/`.
    fn default() -> (r: Location)
        ensures
            r@ == location_of(seq!['/']),
    {
        let r = Location::new("/");
        proof {
            reveal_strlit("/");
        }
        assert("/"@ =~= seq!['/']);
        r
    }
}

impl Location {
    /// The location named by `target`: the path is made absolute and normalised, and an
    /// empty query or fragment counts as absent.
    pub fn new(target: &str) -> (r: Location)
        ensures
            r@ == location_of(target@),
            normal_location(r@),
    {
        proof {
            lemma_location_of_normal(target@);
        }
        let chars = chars_of(target);
        location_from_chars(&chars)
    }

    /// Whether two locations have the same path, query and fragment.
    pub fn same_as(&self, other: &Location) -> (r: bool)
        ensures
            r == (self@ == other@),
    {
        self.path == other.path && option_equal(&self.query, &other.query) && option_equal(
            &self.fragment,
            &other.fragment,
        )
    }

    /// A copy of this location.
    pub fn duplicate(&self) -> (r: Location)
        ensures
            r@ == self@,
    {
        proof {
            use_type_invariant(self);
        }
        let path = self.path.clone();
        let query = copy_option(&self.query);
        let fragment = copy_option(&self.fragment);
        Location { path, query, fragment }
    }

    pub fn path(&self) -> (r: &str)
        ensures
            r@ == self@.path,
    {
        self.path.as_str()
    }

    pub fn query(&self) -> (r: Option<&str>)
        ensures
            match r {
                Some(q) => self@.query == Some(q@),
                None => self@.query is None,
            },
    {
        match &self.query {
            Some(q) => Some(q.as_str()),
            None => None,
        }
    }

    pub fn fragment(&self) -> (r: Option<&str>)
        ensures
            match r {
                Some(f) => self@.fragment == Some(f@),
                None => self@.fragment is None,
            },
    {
        match &self.fragment {
            Some(f) => Some(f.as_str()),
            None => None,
        }
    }

    /// The path followed by `?query` and `#fragment` where present.
    pub fn href(&self) -> (r: String)
        ensures
            r@ == href_of(self@),
            (self@.query matches Some(q) ==> free_of(q, '#')) ==> location_of(r@) == self@,
    {
        proof {
            use_type_invariant(self);
            if normal_location(self@) {
                law_href_round_trip(self@);
            }
        }
        let mut href = chars_of(self.path.as_str());
        if let Some(query) = &self.query {
            href.push('?');
            append_chars(&mut href, &chars_of(query.as_str()));
        }
        if let Some(fragment) = &self.fragment {
            href.push('#');
            append_chars(&mut href, &chars_of(fragment.as_str()));
        }
        proof {
            let q = match self@.query {
                Some(q) => seq!['?'] + q,
                None => Seq::<char>::empty(),
            };
            let f = match self@.fragment {
                Some(f) => seq!['#'] + f,
                None => Seq::<char>::empty(),
            };
            assert(href@ =~= self@.path + q + f);
        }
        string_of(&href)
    }

    /// This location with its query replaced; an empty query removes it.
    pub fn with_query(self, query: &str) -> (r: Location)
        ensures
            r@ == (LocationView { query: non_empty_option(query@), ..self@ }),
    {
        proof {
            use_type_invariant(&self);
        }
        let query = if query.is_empty() { None } else { Some(query.to_owned()) };
        Location { query, ..self }
    }

    /// This location with its fragment replaced; an empty fragment removes it.
    pub fn with_fragment(self, fragment: &str) -> (r: Location)
        ensures
            r@ == (LocationView { fragment: non_empty_option(fragment@), ..self@ }),
    {
        proof {
            use_type_invariant(&self);
        }
        let fragment = if fragment.is_empty() { None } else { Some(fragment.to_owned()) };
        Location { fragment, ..self }
    }

    /// Resolves an absolute or URL-style relative target against this location.
    pub fn resolve(&self, target: &str) -> (r: Location)
        ensures
            r@ == resolve_of(self@, target@),
            starts_with_char(target@, '?') ==> r@.path == self@.path,
            !starts_with_char(target@, '?') && !starts_with_char(target@, '#') ==> r@.query == location_of(
                target@,
            ).query && r@.fragment == location_of(target@).fragment,
            starts_with_char(target@, '#') && (self@.query matches Some(q) ==> free_of(q, '#')) ==> {
                &&& r@.path == self@.path
                &&& r@.query == self@.query
                &&& r@.fragment == (if target@.len() > 1 {
                    Some(target@.skip(1))
                } else {
                    None::<Seq<char>>
                })
            },
    {
        proof {
            use_type_invariant(self);
            law_resolve_keeps_what_the_target_leaves(self@, target@);
            if !starts_with_char(target@, '?') && !starts_with_char(target@, '#') {
                law_relative_target_keeps_query_and_fragment(self@, target@);
            }
        }
        let target = chars_of(target);
        if target.len() > 0 && target[0] == '/' {
            location_from_chars(&target)
        } else if target.len() > 0 && target[0] == '?' {
            let mut joined = chars_of(self.path.as_str());
            append_chars(&mut joined, &target);
            location_from_chars(&joined)
        } else if target.len() > 0 && target[0] == '#' {
            self.resolve_fragment(&target)
        } else {
            self.resolve_relative(&target)
        }
    }

    fn resolve_fragment(&self, target: &Vec<char>) -> (r: Location)
        ensures
            r@ == location_of(
                self@.path + match self@.query {
                    Some(q) => seq!['?'] + q,
                    None => Seq::empty(),
                } + target@,
            ),
    {
        let mut joined = chars_of(self.path.as_str());
        if let Some(query) = &self.query {
            joined.push('?');
            append_chars(&mut joined, &chars_of(query.as_str()));
        }
        append_chars(&mut joined, target);
        proof {
            let q = match self@.query {
                Some(q) => seq!['?'] + q,
                None => Seq::<char>::empty(),
            };
            assert(joined@ =~= self@.path + q + target@);
        }
        location_from_chars(&joined)
    }

    fn resolve_relative(&self, target: &Vec<char>) -> (r: Location)
        ensures
            r@ == location_of(
                resolve_path_of(
                    match last_index_of(self@.path, '/') {
                        Some(i) => self@.path.take(i),
                        None => Seq::empty(),
                    },
                    target@,
                ),
            ),
    {
        let path = chars_of(self.path.as_str());
        let base = match find_last_char(&path, '/') {
            Some(i) => slice_chars(&path, 0, i),
            None => Vec::new(),
        };
        proof {
            match last_index_of(path@, '/') {
                Some(i) => assert(path@.subrange(0, i) =~= path@.take(i)),
                None => {},
            }
        }
        location_from_chars(&resolve_path(&base, target))
    }

    /// The non-empty segments of the path.
    pub fn segments(&self) -> (r: Vec<Vec<char>>)
        ensures
            views(r@) == path_segments_of(self@.path),
    {
        path_segments(&chars_of(self.path.as_str()))
    }
}


/// The value of an ASCII hexadecimal digit.
pub open spec fn hex_value_of(b: u8) -> Option<u8> {
    if 48 <= b <= 57 {
        Some((b - 48) as u8)
    } else if 97 <= b <= 102 {
        Some((b - 87) as u8)
    } else if 65 <= b <= 70 {
        Some((b - 55) as u8)
    } else {
        None
    }
}

/// `prefix` prepended to a decoded remainder, if there is one.
pub open spec fn prepend_bytes(prefix: Seq<u8>, rest: Option<Seq<u8>>) -> Option<Seq<u8>> {
    match rest {
        Some(r) => Some(prefix + r),
        None => None,
    }
}

/// Bytes with each `%XX` escape replaced by the byte it names; `None` when an escape is
/// cut short or holds a non-hexadecimal digit.
pub open spec fn percent_decode_bytes(b: Seq<u8>) -> Option<Seq<u8>>
    decreases b.len(),
{
    if b.len() == 0 {
        Some(Seq::empty())
    } else if b[0] != 37 {
        prepend_bytes(seq![b[0]], percent_decode_bytes(b.drop_first()))
    } else if b.len() < 3 {
        None
    } else {
        match (hex_value_of(b[1]), hex_value_of(b[2])) {
            (Some(high), Some(low)) => prepend_bytes(
                seq![(high * 16 + low) as u8],
                percent_decode_bytes(b.skip(3)),
            ),
            _ => None,
        }
    }
}

/// The percent-decoded text, when the escapes are well formed and the decoded bytes are
/// valid UTF-8.
pub open spec fn percent_decode_of(value: Seq<char>) -> Option<Seq<char>> {
    match percent_decode_bytes(encode_utf8(value)) {
        Some(d) => if valid_utf8(d) {
            Some(decode_utf8(d))
        } else {
            None
        },
        None => None,
    }
}

/// Bytes that a path segment keeps as they are.
pub open spec fn is_unreserved(b: u8) -> bool {
    (48 <= b <= 57) || (65 <= b <= 90) || (97 <= b <= 122) || b == 45 || b == 46 || b == 95
        || b == 126
}

/// The upper-case hexadecimal digit for `n < 16`.
pub open spec fn hex_digit_of(n: u8) -> char {
    if n < 10 {
        (48 + n) as char
    } else {
        (55 + n) as char
    }
}

/// One byte as it appears in an encoded path segment.
pub open spec fn encode_byte(b: u8) -> Seq<char> {
    if is_unreserved(b) {
        seq![b as char]
    } else {
        seq!['%', hex_digit_of(b / 16), hex_digit_of(b % 16)]
    }
}

/// Each byte encoded in turn.
pub open spec fn percent_encode_bytes(b: Seq<u8>) -> Seq<char>
    decreases b.len(),
{
    if b.len() == 0 {
        Seq::empty()
    } else {
        percent_encode_bytes(b.drop_last()) + encode_byte(b.last())
    }
}

/// A value encoded as a single path segment: every byte of its UTF-8 form outside
/// `A-Z a-z 0-9 - . _ ~` becomes `%XX`.
pub open spec fn encode_path_segment_of(value: Seq<char>) -> Seq<char> {
    percent_encode_bytes(encode_utf8(value))
}

fn hex_value(value: u8) -> (r: Option<u8>)
    ensures
        r == hex_value_of(value),
        r matches Some(v) ==> v < 16,
{
    if value >= 48 && value <= 57 {
        Some(value - 48)
    } else if value >= 97 && value <= 102 {
        Some(value - 87)
    } else if value >= 65 && value <= 70 {
        Some(value - 55)
    } else {
        None
    }
}

fn hex_digit(n: u8) -> (r: char)
    requires
        n < 16,
    ensures
        r == hex_digit_of(n),
{
    if n < 10 {
        (48 + n) as char
    } else {
        (55 + n) as char
    }
}

proof fn lemma_decode_plain(b: Seq<u8>, i: int)
    requires
        0 <= i < b.len(),
        b[i] != 37,
    ensures
        percent_decode_bytes(b.skip(i)) == prepend_bytes(
            seq![b[i]],
            percent_decode_bytes(b.skip(i + 1)),
        ),
{
    assert(b.skip(i).drop_first() =~= b.skip(i + 1));
}

proof fn lemma_decode_escape(b: Seq<u8>, i: int, high: u8, low: u8)
    requires
        0 <= i,
        i + 2 < b.len(),
        b[i] == 37,
        hex_value_of(b[i + 1]) == Some(high),
        hex_value_of(b[i + 2]) == Some(low),
    ensures
        percent_decode_bytes(b.skip(i)) == prepend_bytes(
            seq![(high * 16 + low) as u8],
            percent_decode_bytes(b.skip(i + 3)),
        ),
{
    assert(b.skip(i).skip(3) =~= b.skip(i + 3));
}

proof fn lemma_prepend_push(before: Seq<u8>, x: u8, rest: Option<Seq<u8>>)
    ensures
        prepend_bytes(before, prepend_bytes(seq![x], rest)) == prepend_bytes(before.push(x), rest),
{
    match rest {
        Some(tail) => {
            assert(before + (seq![x] + tail) =~= before.push(x) + tail);
        },
        None => {},
    }
}

/// Decodes `%XX` escapes; `None` for a malformed escape or bytes that are not UTF-8.
pub fn percent_decode(value: &str) -> (r: Option<String>)
    ensures
        match r {
            Some(s) => percent_decode_of(value@) == Some(s@),
            None => percent_decode_of(value@) is None,
        },
{
    let bytes = value.as_bytes();
    let ghost b = bytes@;
    let mut decoded: Vec<u8> = Vec::new();
    let mut index: usize = 0;
    assert(b.skip(0) =~= b);
    assert(Seq::<u8>::empty() + b =~= b);
    while index < bytes.len()
        invariant
            b == bytes@,
            b == encode_utf8(value@),
            index <= b.len(),
            percent_decode_bytes(b) == prepend_bytes(decoded@, percent_decode_bytes(b.skip(index as int))),
        decreases b.len() - index,
    {
        if bytes[index] != 37 {
            proof {
                lemma_decode_plain(b, index as int);
                lemma_prepend_push(decoded@, b[index as int], percent_decode_bytes(b.skip(index + 1)));
            }
            decoded.push(bytes[index]);
            index = index + 1;
        } else {
            if bytes.len() - index < 3 {
                assert(b.skip(index as int).len() < 3);
                return None;
            }
            let high = match hex_value(bytes[index + 1]) {
                Some(h) => h,
                None => {
                    assert(b.skip(index as int)[1] == b[index + 1]);
                    return None;
                },
            };
            let low = match hex_value(bytes[index + 2]) {
                Some(l) => l,
                None => {
                    assert(b.skip(index as int)[1] == b[index + 1]);
                    assert(b.skip(index as int)[2] == b[index + 2]);
                    return None;
                },
            };
            let byte = (high << 4) | low;
            assert(byte == high * 16 + low) by (bit_vector)
                requires
                    high < 16,
                    low < 16,
                    byte == (high << 4) | low,
            ;
            proof {
                lemma_decode_escape(b, index as int, high, low);
                lemma_prepend_push(decoded@, byte, percent_decode_bytes(b.skip(index + 3)));
            }
            decoded.push(byte);
            index = index + 3;
        }
    }
    assert(b.skip(index as int) =~= Seq::<u8>::empty());
    assert(decoded@ + Seq::<u8>::empty() =~= decoded@);
    string_from_utf8(decoded)
}

impl Location {
    /// Percent-encodes a single dynamic path segment. Slashes are encoded so a value can
    /// never change the declared route hierarchy.
    pub fn encode_path_segment(value: &str) -> (r: String)
        ensures
            r@ == encode_path_segment_of(value@),
    {
        let bytes = value.as_bytes();
        let mut encoded: Vec<char> = Vec::new();
        let mut i: usize = 0;
        while i < bytes.len()
            invariant
                i <= bytes@.len(),
                bytes@ == encode_utf8(value@),
                encoded@ == percent_encode_bytes(bytes@.take(i as int)),
            decreases bytes@.len() - i,
        {
            let byte = bytes[i];
            assert(bytes@.take(i + 1).drop_last() =~= bytes@.take(i as int));
            let ghost before = encoded@;
            if (byte >= 48 && byte <= 57) || (byte >= 65 && byte <= 90) || (byte >= 97 && byte <= 122)
                || byte == 45 || byte == 46 || byte == 95 || byte == 126 {
                encoded.push(byte as char);
            } else {
                assert(byte >> 4 == byte / 16 && byte & 0x0f == byte % 16 && byte >> 4 < 16
                    && byte & 0x0f < 16) by (bit_vector);
                encoded.push('%');
                encoded.push(hex_digit(byte >> 4));
                encoded.push(hex_digit(byte & 0x0f));
            }
            assert(encoded@ =~= before + encode_byte(byte));
            i = i + 1;
        }
        assert(bytes@.take(i as int) =~= bytes@);
        string_of(&encoded)
    }
}

/// The bytes of ASCII characters.
pub open spec fn ascii_bytes(cs: Seq<char>) -> Seq<u8> {
    cs.map_values(|c: char| c as u8)
}

proof fn lemma_encode_byte_ascii(b: u8)
    ensures
        is_ascii_chars(encode_byte(b)),
        forall|i: int| 0 <= i < encode_byte(b).len() ==> encode_byte(b)[i] != '/',
        percent_decode_bytes(ascii_bytes(encode_byte(b))) == Some(seq![b]),
        forall|rest: Seq<u8>|
            #[trigger] percent_decode_bytes(ascii_bytes(encode_byte(b)) + rest) == prepend_bytes(
                seq![b],
                percent_decode_bytes(rest),
            ),
{
    let e = encode_byte(b);
    let a = ascii_bytes(e);
    if is_unreserved(b) {
        assert((b as char) as u8 == b);
        assert(a =~= seq![b]);
        assert forall|rest: Seq<u8>|
            #[trigger] percent_decode_bytes(ascii_bytes(encode_byte(b)) + rest) == prepend_bytes(
                seq![b],
                percent_decode_bytes(rest),
            ) by {
            assert((a + rest)[0] == b);
            assert((a + rest).drop_first() =~= rest);
        }
        assert(seq![b] + Seq::<u8>::empty() =~= seq![b]);
        assert(a.drop_first() =~= Seq::<u8>::empty());
        assert(percent_decode_bytes(Seq::<u8>::empty()) == Some(Seq::<u8>::empty()));
        assert(percent_decode_bytes(a) == prepend_bytes(seq![b], percent_decode_bytes(a.drop_first())));
    } else {
        let high = b / 16;
        let low = b % 16;
        assert(a =~= seq![37u8, hex_digit_of(high) as u8, hex_digit_of(low) as u8]);
        assert(hex_value_of(hex_digit_of(high) as u8) == Some(high));
        assert(hex_value_of(hex_digit_of(low) as u8) == Some(low));
        assert((high * 16 + low) as u8 == b);
        assert forall|rest: Seq<u8>|
            #[trigger] percent_decode_bytes(ascii_bytes(encode_byte(b)) + rest) == prepend_bytes(
                seq![b],
                percent_decode_bytes(rest),
            ) by {
            assert((a + rest).skip(3) =~= rest);
        }
        assert(a.skip(3) =~= Seq::<u8>::empty());
        assert(seq![b] + Seq::<u8>::empty() =~= seq![b]);
    }
}

proof fn lemma_percent_encode_front(b: Seq<u8>)
    requires
        b.len() > 0,
    ensures
        percent_encode_bytes(b) == encode_byte(b[0]) + percent_encode_bytes(b.drop_first()),
    decreases b.len(),
{
    if b.len() == 1 {
        assert(b.drop_last() =~= Seq::<u8>::empty());
        assert(b.drop_first() =~= Seq::<u8>::empty());
        assert(percent_encode_bytes(b.drop_last()) == Seq::<char>::empty());
        assert(b.last() == b[0]);
        assert(Seq::<char>::empty() + encode_byte(b[0]) =~= encode_byte(b[0]) + Seq::<char>::empty());
    } else {
        lemma_percent_encode_front(b.drop_last());
        assert(b.drop_last().drop_first() =~= b.drop_first().drop_last());
        assert(b.drop_first().last() == b.last());
        assert(percent_encode_bytes(b) =~= encode_byte(b[0]) + percent_encode_bytes(b.drop_first()));
    }
}

proof fn lemma_percent_encode_round_trip(b: Seq<u8>)
    ensures
        is_ascii_chars(percent_encode_bytes(b)),
        forall|i: int|
            0 <= i < percent_encode_bytes(b).len() ==> percent_encode_bytes(b)[i] != '/',
        percent_decode_bytes(ascii_bytes(percent_encode_bytes(b))) == Some(b),
    decreases b.len(),
{
    if b.len() == 0 {
        assert(ascii_bytes(percent_encode_bytes(b)) =~= Seq::<u8>::empty());
        assert(b =~= Seq::<u8>::empty());
    } else {
        lemma_percent_encode_front(b);
        lemma_percent_encode_round_trip(b.drop_first());
        lemma_encode_byte_ascii(b[0]);
        let head = encode_byte(b[0]);
        let tail = percent_encode_bytes(b.drop_first());
        assert(percent_encode_bytes(b) == head + tail);
        assert forall|i: int| 0 <= i < (head + tail).len() implies '\0' <= #[trigger] (head
            + tail)[i] <= '\u{7f}' && (head + tail)[i] != '/' by {
            if i < head.len() {
                assert((head + tail)[i] == head[i]);
            } else {
                assert((head + tail)[i] == tail[i - head.len()]);
            }
        }
        assert(ascii_bytes(head + tail) =~= ascii_bytes(head) + ascii_bytes(tail));
        assert(percent_decode_bytes(ascii_bytes(head) + ascii_bytes(tail)) == prepend_bytes(
            seq![b[0]],
            percent_decode_bytes(ascii_bytes(tail)),
        ));
        assert(seq![b[0]] + b.drop_first() =~= b);
    }
}

/// Decoding an encoded path segment gives back the initial value, and the encoding
/// never contains `/`, so a value cannot change the route hierarchy.
pub proof fn law_path_segment_round_trip(value: Seq<char>)
    ensures
        percent_decode_of(encode_path_segment_of(value)) == Some(value),
        forall|i: int|
            0 <= i < encode_path_segment_of(value).len() ==> encode_path_segment_of(value)[i]
                != '/',
{
    let b = encode_utf8(value);
    let e = percent_encode_bytes(b);
    lemma_percent_encode_round_trip(b);
    is_ascii_chars_encode_utf8(e);
    assert(encode_utf8(e) =~= ascii_bytes(e));
    encode_utf8_valid_utf8(value);
    encode_utf8_decode_utf8(value);
}

} // verus!
