//! Output file names for encoding and decoding.
//!
//! A path is read as `/`-separated text, by the rules of `std::path::Path`
//! on Unix: separators that follow each other count as one, `.` components
//! are dropped except a leading one, and the file name is the last component
//! when that is a normal name (not `.`, `..` or the root).

use vstd::prelude::*;

verus! {

/// The encoded suffix in lower case.
pub const ENCODED_SUFFIX_LOWER: [char; 9] = ['.', 'a', 'r', 'w', 'c', '.', 'j', 'p', 'g'];

/// ASCII lower case of a character.
pub open spec fn ascii_lower(c: char) -> char {
    if 'A' <= c && c <= 'Z' {
        ((c as u32) + 32) as char
    } else {
        c
    }
}

/// ASCII lower case of a string.
pub open spec fn lower(s: Seq<char>) -> Seq<char> {
    s.map_values(|c: char| ascii_lower(c))
}

/// Whether `s` ends, ignoring ASCII case, with `.arwc.jpg`.
pub open spec fn ends_with_encoded_suffix(s: Seq<char>) -> bool {
    s.len() >= 9 && lower(s.subrange(s.len() - 9, s.len() as int)) == ENCODED_SUFFIX_LOWER@
}

/// Where the body of a path starts: after a leading `/` (the root) or a
/// leading `.` component; else at 0.
pub open spec fn body_start(p: Seq<char>) -> int {
    if p.len() > 0 && p[0] == '/' {
        1
    } else if p.len() > 0 && p[0] == '.' && (p.len() == 1 || p[1] == '/') {
        1
    } else {
        0
    }
}

/// Whether the character before `pos` is a separator, or a `.` that makes
/// up a whole component.
pub open spec fn skippable(p: Seq<char>, b: int, pos: int) -> bool {
    p[pos - 1] == '/' || (p[pos - 1] == '.' && (pos - 1 == b || p[pos - 2] == '/'))
}

/// `pos` moved back over trailing separators and `.` components, not past
/// the body start `b`.
pub open spec fn skip_back(p: Seq<char>, b: int, pos: int) -> int
    decreases pos,
{
    if pos <= b || pos <= 0 {
        pos
    } else if skippable(p, b, pos) {
        skip_back(p, b, pos - 1)
    } else {
        pos
    }
}

/// Start of the component that ends at `pos`: just after the last `/`
/// before `pos`, not before the body start `b`.
pub open spec fn piece_start(p: Seq<char>, b: int, pos: int) -> int
    decreases pos,
{
    if pos <= b || pos <= 0 || p[pos - 1] == '/' {
        pos
    } else {
        piece_start(p, b, pos - 1)
    }
}

/// Where the last component of `p` ends, ignoring trailing separators and
/// `.` components; at most the body start when there is none.
pub open spec fn name_end(p: Seq<char>) -> int {
    skip_back(p, body_start(p), p.len() as int)
}

/// Where the last component of `p` starts.
pub open spec fn name_start(p: Seq<char>) -> int {
    piece_start(p, body_start(p), name_end(p))
}

/// Whether `p` has a file name: a last component that is a normal name.
pub open spec fn has_file_name(p: Seq<char>) -> bool {
    name_end(p) > body_start(p) && p.subrange(name_start(p), name_end(p)) != seq!['.', '.']
}

/// The file name of `p` (meaningful when it has one).
pub open spec fn file_name(p: Seq<char>) -> Seq<char> {
    p.subrange(name_start(p), name_end(p))
}

/// Position of the last `.` in `n`, or -1.
pub open spec fn last_dot(n: Seq<char>) -> int
    decreases n.len(),
{
    if n.len() == 0 {
        -1
    } else if n.last() == '.' {
        n.len() - 1
    } else {
        last_dot(n.drop_last())
    }
}

/// Where the stem of a file name ends: at its last `.`, unless that `.` is
/// its first character (then the whole name is the stem).
pub open spec fn stem_end(n: Seq<char>) -> int {
    if last_dot(n) > 0 {
        last_dot(n)
    } else {
        n.len() as int
    }
}

/// The file stem of `p`: its file name up to the extension.
pub open spec fn file_stem(p: Seq<char>) -> Seq<char> {
    file_name(p).subrange(0, stem_end(file_name(p)))
}

/// `Path::with_extension`: `p` cut right after its file stem, then `.` and
/// `ext`; `p` itself when it has no file name.
pub open spec fn with_extension(p: Seq<char>, ext: Seq<char>) -> Seq<char> {
    if !has_file_name(p) {
        p
    } else {
        p.subrange(0, name_start(p) + stem_end(file_name(p))) + seq!['.'] + ext
    }
}

/// Where the parent of `p` ends: before its file name, with trailing
/// separators and `.` components dropped.
pub open spec fn parent_end(p: Seq<char>) -> int {
    skip_back(p, body_start(p), name_start(p))
}

/// `Path::with_file_name` for a path that has a file name: its parent, a
/// `/` unless the parent is empty or already ends in one, then `f`.
pub open spec fn with_file_name(p: Seq<char>, f: Seq<char>) -> Seq<char> {
    let pe = parent_end(p);
    p.subrange(0, pe) + (if pe > 0 && p[pe - 1] != '/' {
        seq!['/']
    } else {
        Seq::empty()
    }) + f
}

/// The path of `encoded_output_path`.
pub open spec fn spec_encoded_output_path(p: Seq<char>) -> Seq<char> {
    with_extension(p, seq!['A', 'R', 'W', 'C', '.', 'J', 'P', 'G'])
}

/// The path of `decoded_output_path`: a file name ending in `.ARWC.JPG` in
/// any case is replaced by its part before that suffix and `.ARW`; any other
/// path gets the extension `ARW`.
pub open spec fn spec_decoded_output_path(p: Seq<char>) -> Seq<char> {
    let n = file_name(p);
    if has_file_name(p) && ends_with_encoded_suffix(n) {
        with_file_name(p, n.subrange(0, n.len() - 9) + seq!['.', 'A', 'R', 'W'])
    } else {
        with_extension(p, seq!['A', 'R', 'W'])
    }
}

/// `String::push`: appends one character.
#[verifier::external_body]
pub(crate) fn string_push(s: &mut String, c: char)
    ensures
        final(s)@ == old(s)@.push(c),
{
    s.push(c);
}

/// The characters of a string.
fn chars_of(s: &str) -> (v: Vec<char>)
    ensures
        v@ == s@,
{
    let n = s.unicode_len();
    let mut v: Vec<char> = Vec::with_capacity(n);
    let mut i: usize = 0;
    while i < n
        invariant
            n == s@.len(),
            i <= n,
            v@ == s@.subrange(0, i as int),
        decreases n - i,
    {
        v.push(s.get_char(i));
        i += 1;
        assert(v@ =~= s@.subrange(0, i as int));
    }
    assert(s@.subrange(0, n as int) =~= s@);
    v
}

/// A string of `v[0..end]` followed by `tail`.
fn string_of(v: &Vec<char>, end: usize, tail: &[char]) -> (s: String)
    requires
        end <= v@.len(),
    ensures
        s@ == v@.subrange(0, end as int) + tail@,
{
    let mut s = String::new();
    let mut i: usize = 0;
    while i < end
        invariant
            end <= v@.len(),
            i <= end,
            s@ == v@.subrange(0, i as int),
        decreases end - i,
    {
        string_push(&mut s, v[i]);
        i += 1;
        assert(s@ =~= v@.subrange(0, i as int));
    }
    let mut j: usize = 0;
    while j < tail.len()
        invariant
            j <= tail@.len(),
            s@ == v@.subrange(0, end as int) + tail@.subrange(0, j as int),
        decreases tail@.len() - j,
    {
        string_push(&mut s, tail[j]);
        j += 1;
        assert(s@ =~= v@.subrange(0, end as int) + tail@.subrange(0, j as int));
    }
    assert(tail@.subrange(0, tail@.len() as int) =~= tail@);
    s
}

/// Whether `ascii_lower(c) == l`, for a lower-case or non-letter `l`.
fn lower_eq(c: char, l: char) -> (b: bool)
    requires
        !('A' <= l && l <= 'Z'),
    ensures
        b == (ascii_lower(c) == l),
{
    if 'a' <= l && l <= 'z' {
        c == l || (c as u32) + 32 == (l as u32)
    } else {
        c == l
    }
}

/// Whether `v[..end]` ends with `.arwc.jpg`, ignoring ASCII case.
fn ends_with_suffix(v: &Vec<char>, end: usize) -> (b: bool)
    requires
        end <= v@.len(),
    ensures
        b == ends_with_encoded_suffix(v@.subrange(0, end as int)),
{
    if end < 9 {
        return false;
    }
    let ghost s = v@.subrange(0, end as int);
    let ghost tail = s.subrange(s.len() - 9, s.len() as int);
    let mut k: usize = 0;
    while k < 9
        invariant
            9 <= end <= v@.len(),
            s == v@.subrange(0, end as int),
            tail == s.subrange(s.len() - 9, s.len() as int),
            k <= 9,
            forall|m: int| 0 <= m < k ==> ascii_lower(tail[m]) == ENCODED_SUFFIX_LOWER@[m],
        decreases 9 - k,
    {
        if !lower_eq(v[end - 9 + k], ENCODED_SUFFIX_LOWER[k]) {
            assert(lower(tail)[k as int] != ENCODED_SUFFIX_LOWER@[k as int]);
            return false;
        }
        k += 1;
    }
    assert(lower(tail) =~= ENCODED_SUFFIX_LOWER@);
    true
}

/// Where the body of `v` starts.
fn body_start_of(v: &Vec<char>) -> (b: usize)
    ensures
        b == body_start(v@),
        b <= 1,
{
    let n = v.len();
    if n > 0 && v[0] == '/' {
        1
    } else if n > 0 && v[0] == '.' && (n == 1 || v[1] == '/') {
        1
    } else {
        0
    }
}

/// `skip_back` of `v`.
fn skip_back_of(v: &Vec<char>, b: usize, pos: usize) -> (r: usize)
    requires
        pos <= v@.len(),
    ensures
        r == skip_back(v@, b as int, pos as int),
        r <= pos,
{
    let mut i = pos;
    while i > b && i > 0 && (v[i - 1] == '/' || (v[i - 1] == '.' && (i - 1 == b || v[i - 2] == '/')))
        invariant
            i <= pos,
            pos <= v@.len(),
            skip_back(v@, b as int, pos as int) == skip_back(v@, b as int, i as int),
        decreases i,
    {
        i -= 1;
    }
    i
}

/// `piece_start` of `v`.
fn piece_start_of(v: &Vec<char>, b: usize, pos: usize) -> (r: usize)
    requires
        pos <= v@.len(),
        b <= pos,
    ensures
        r == piece_start(v@, b as int, pos as int),
        b <= r <= pos,
{
    let mut i = pos;
    while i > b && i > 0 && v[i - 1] != '/'
        invariant
            b <= i <= pos,
            pos <= v@.len(),
            piece_start(v@, b as int, pos as int) == piece_start(v@, b as int, i as int),
        decreases i,
    {
        i -= 1;
    }
    i
}

/// Where the file name of `v` lies, if it has one.
fn name_bounds(v: &Vec<char>) -> (r: Option<(usize, usize)>)
    ensures
        match r {
            Some((s, e)) => has_file_name(v@) && s == name_start(v@) && e == name_end(v@) && s < e
                <= v@.len(),
            None => !has_file_name(v@),
        },
{
    let b = body_start_of(v);
    let e = skip_back_of(v, b, v.len());
    if e <= b {
        return None;
    }
    let s = piece_start_of(v, b, e);
    proof {
        lemma_skip_back_stops(v@, b as int, v@.len() as int);
        lemma_piece_start_bounds(v@, b as int, e - 1);
        assert(piece_start(v@, b as int, e as int) == piece_start(v@, b as int, e - 1));
    }
    if e - s == 2 && v[s] == '.' && v[s + 1] == '.' {
        assert(v@.subrange(s as int, e as int) =~= seq!['.', '.']);
        return None;
    }
    proof {
        let n = v@.subrange(s as int, e as int);
        if n == seq!['.', '.'] {
            assert(n.len() == 2);
            assert(e - s == 2);
            assert(n[0] == v@[s as int]);
            assert(n[1] == v@[s + 1]);
            assert(v@[s as int] == '.' && v@[s + 1] == '.');
        }
    }
    Some((s, e))
}

/// Where the file stem of `v[s..e]` ends, as a position of `v`.
fn stem_stop(v: &Vec<char>, s: usize, e: usize) -> (k: usize)
    requires
        s < e <= v@.len(),
    ensures
        k == s + stem_end(v@.subrange(s as int, e as int)),
        s < k <= e,
{
    let mut j = e;
    proof {
        lemma_last_dot(v@.subrange(s as int, e as int));
    }
    while j > s && v[j - 1] != '.'
        invariant
            s <= j <= e,
            e <= v@.len(),
            last_dot(v@.subrange(s as int, e as int)) == last_dot(v@.subrange(s as int, j as int)),
        decreases j,
    {
        assert(v@.subrange(s as int, j as int).drop_last() =~= v@.subrange(s as int, j - 1));
        j -= 1;
    }
    if j > s {
        assert(v@.subrange(s as int, j as int).last() == v@[j - 1]);
    }
    if j > s + 1 {
        j - 1
    } else {
        e
    }
}

/// `v` with the extension of its file name replaced by `ext`.
fn replace_extension(v: &Vec<char>, ext: &[char]) -> (s: String)
    ensures
        s@ == with_extension(v@, ext@),
{
    match name_bounds(v) {
        None => {
            assert(v@.subrange(0, v@.len() as int) + Seq::<char>::empty() =~= v@);
            let empty: [char; 0] = [];
            assert(empty@ =~= Seq::<char>::empty());
            string_of(v, v.len(), empty.as_slice())
        },
        Some((s, e)) => {
            let k = stem_stop(v, s, e);
            let mut tail: Vec<char> = Vec::new();
            tail.push('.');
            push_chars(&mut tail, ext, 0, ext.len());
            assert(ext@.subrange(0, ext@.len() as int) =~= ext@);
            assert(tail@ =~= seq!['.'] + ext@);
            string_of(v, k, tail.as_slice())
        },
    }
}

/// Appends `src[from..to]` to `dst`.
fn push_chars(dst: &mut Vec<char>, src: &[char], from: usize, to: usize)
    requires
        from <= to <= src@.len(),
    ensures
        final(dst)@ == old(dst)@ + src@.subrange(from as int, to as int),
{
    let mut i = from;
    while i < to
        invariant
            from <= i <= to <= src@.len(),
            dst@ == old(dst)@ + src@.subrange(from as int, i as int),
        decreases to - i,
    {
        dst.push(src[i]);
        i += 1;
        assert(dst@ =~= old(dst)@ + src@.subrange(from as int, i as int));
    }
}

/// `photo.ARW` → `photo.ARWC.JPG`
pub fn encoded_output_path(input: &str) -> (s: String)
    ensures
        s@ == spec_encoded_output_path(input@),
{
    let v = chars_of(input);
    let ext = ['A', 'R', 'W', 'C', '.', 'J', 'P', 'G'];
    assert(ext@ =~= seq!['A', 'R', 'W', 'C', '.', 'J', 'P', 'G']);
    replace_extension(&v, ext.as_slice())
}

/// `shot.ARWC.JPG` / `shot.arwc.jpg` → `shot.ARW`
pub fn decoded_output_path(input: &str) -> (s: String)
    ensures
        s@ == spec_decoded_output_path(input@),
{
    let v = chars_of(input);
    match name_bounds(&v) {
        Some((s, e)) => {
            let n = e - s;
            let suffixed = n >= 9 && ends_with_suffix(&v, e);
            proof {
                let f = file_name(v@);
                assert(f =~= v@.subrange(s as int, e as int));
                if n >= 9 {
                    assert(f.subrange(f.len() - 9, f.len() as int) =~= v@.subrange(e - 9, e as int));
                    assert(v@.subrange(0, e as int).subrange(e - 9, e as int) =~= v@.subrange(e - 9, e as int));
                }
                assert(suffixed == ends_with_encoded_suffix(f));
            }
            if suffixed {
                let b = body_start_of(&v);
                let pe = skip_back_of(&v, b, s);
                let mut tail: Vec<char> = Vec::new();
                if pe > 0 && v[pe - 1] != '/' {
                    tail.push('/');
                }
                let ghost sep = tail@;
                push_chars(&mut tail, v.as_slice(), s, e - 9);
                tail.push('.');
                tail.push('A');
                tail.push('R');
                tail.push('W');
                proof {
                    let f = file_name(v@);
                    assert(f.subrange(0, f.len() - 9) =~= v@.subrange(s as int, e - 9));
                    assert(tail@ =~= sep + (f.subrange(0, f.len() - 9) + seq!['.', 'A', 'R', 'W']));
                }
                let out = string_of(&v, pe, tail.as_slice());
                assert(out@ =~= spec_decoded_output_path(v@));
                return out;
            }
        },
        None => {},
    }
    let ext = ['A', 'R', 'W'];
    assert(ext@ =~= seq!['A', 'R', 'W']);
    replace_extension(&v, ext.as_slice())
}

/// `last_dot` is the last `.`: nothing after it is a `.`.
proof fn lemma_last_dot(n: Seq<char>)
    ensures
        -1 <= last_dot(n) < n.len(),
        last_dot(n) >= 0 ==> n[last_dot(n)] == '.',
        forall|m: int| last_dot(n) < m < n.len() ==> n[m] != '.',
    decreases n.len(),
{
    if n.len() > 0 && n.last() != '.' {
        lemma_last_dot(n.drop_last());
        assert forall|m: int| last_dot(n) < m < n.len() implies n[m] != '.' by {
            if m < n.len() - 1 {
                assert(n[m] == n.drop_last()[m]);
            }
        }
    }
}

/// The component that ends at `pos` starts at the body start or just after
/// a `/`, and holds no `/`.
proof fn lemma_piece_start_bounds(p: Seq<char>, b: int, pos: int)
    requires
        0 <= b <= pos <= p.len(),
    ensures
        b <= piece_start(p, b, pos) <= pos,
        piece_start(p, b, pos) == b || p[piece_start(p, b, pos) - 1] == '/',
        forall|m: int| piece_start(p, b, pos) <= m < pos ==> p[m] != '/',
    decreases pos,
{
    if pos > b && pos > 0 && p[pos - 1] != '/' {
        lemma_piece_start_bounds(p, b, pos - 1);
    }
}

/// A component is found where it is: from a start at the body start or
/// just after a `/`, with no `/` up to `pos`.
proof fn lemma_piece_start_at(p: Seq<char>, b: int, s: int, pos: int)
    requires
        0 <= b <= s <= pos <= p.len(),
        s == b || p[s - 1] == '/',
        forall|m: int| s <= m < pos ==> p[m] != '/',
    ensures
        piece_start(p, b, pos) == s,
    decreases pos,
{
    if pos > s {
        lemma_piece_start_at(p, b, s, pos - 1);
    }
}

/// `skip_back` reads only what lies before `pos`.
proof fn lemma_skip_back_prefix(p: Seq<char>, q: Seq<char>, b: int, pos: int)
    requires
        0 <= b,
        pos <= p.len(),
        pos <= q.len(),
        p.subrange(0, pos) == q.subrange(0, pos),
    ensures
        skip_back(p, b, pos) == skip_back(q, b, pos),
    decreases pos,
{
    if pos > b && pos > 0 {
        assert(p[pos - 1] == p.subrange(0, pos)[pos - 1]);
        assert(q[pos - 1] == q.subrange(0, pos)[pos - 1]);
        if pos >= 2 {
            assert(p[pos - 2] == p.subrange(0, pos)[pos - 2]);
            assert(q[pos - 2] == q.subrange(0, pos)[pos - 2]);
        }
        assert(p.subrange(0, pos - 1) =~= q.subrange(0, pos - 1)) by {
            assert(p.subrange(0, pos - 1) =~= p.subrange(0, pos).subrange(0, pos - 1));
            assert(q.subrange(0, pos - 1) =~= q.subrange(0, pos).subrange(0, pos - 1));
        }
        lemma_skip_back_prefix(p, q, b, pos - 1);
    }
}

/// Where `skip_back` stops past the body start, no separator or `.`
/// component ends.
proof fn lemma_skip_back_stops(p: Seq<char>, b: int, pos: int)
    requires
        0 <= b,
    ensures
        skip_back(p, b, pos) > b ==> !skippable(p, b, skip_back(p, b, pos)),
    decreases pos,
{
    if pos > b && pos > 0 && skippable(p, b, pos) {
        lemma_skip_back_stops(p, b, pos - 1);
    }
}

/// `skip_back` stays between the body start and where it started.
proof fn lemma_skip_back_bounds(p: Seq<char>, b: int, pos: int)
    requires
        0 <= b <= pos,
    ensures
        b <= skip_back(p, b, pos) <= pos,
    decreases pos,
{
    if pos > b && pos > 0 && skippable(p, b, pos) {
        lemma_skip_back_bounds(p, b, pos - 1);
    }
}

/// The file name of the path that `encoded_output_path` gives ends in
/// `.ARWC.JPG`, and `decoded_output_path` of it is the path's parent joined
/// with its file stem and `.ARW`: decoding's default name undoes encoding's.
pub proof fn lemma_decoded_path_of_encoded(p: Seq<char>)
    requires
        has_file_name(p),
    ensures
        ends_with_encoded_suffix(spec_encoded_output_path(p)),
        spec_decoded_output_path(spec_encoded_output_path(p)) == with_file_name(
            p,
            file_stem(p) + seq!['.', 'A', 'R', 'W'],
        ),
{
    let b = body_start(p);
    let e0 = name_end(p);
    let s = name_start(p);
    let n = file_name(p);
    lemma_skip_back_bounds(p, b, p.len() as int);
    lemma_piece_start_bounds(p, b, e0);
    lemma_last_dot(n);
    let se = stem_end(n);
    let k = s + se;
    let suffix = seq!['.', 'A', 'R', 'W', 'C', '.', 'J', 'P', 'G'];
    let e = spec_encoded_output_path(p);
    assert(e =~= p.subrange(0, k) + suffix);
    assert(forall|m: int| 0 <= m < k ==> e[m] == p[m]);
    assert(e[0] == p[0]);
    assert(k >= 2 ==> e[1] == p[1]);
    assert(k == 1 ==> e[1] == '.');
    assert(body_start(e) == b);
    assert(!skippable(e, b, e.len() as int));
    assert(name_end(e) == e.len());
    assert forall|m: int| s <= m < e.len() implies e[m] != '/' by {
        if m < k {
            assert(p[m] != '/');
        }
    }
    assert(s == b || e[s - 1] == '/');
    lemma_piece_start_at(e, b, s, e.len() as int);
    assert(name_start(e) == s);
    let fe = file_name(e);
    assert(fe.len() == se + 9);
    assert(fe != seq!['.', '.']);
    assert(e.subrange(e.len() - 9, e.len() as int) =~= suffix);
    assert(fe.subrange(fe.len() - 9, fe.len() as int) =~= suffix);
    assert(lower(suffix) =~= ENCODED_SUFFIX_LOWER@) by {
        assert(ascii_lower('A') == 'a');
        assert(ascii_lower('R') == 'r');
        assert(ascii_lower('W') == 'w');
        assert(ascii_lower('C') == 'c');
        assert(ascii_lower('J') == 'j');
        assert(ascii_lower('P') == 'p');
        assert(ascii_lower('G') == 'g');
    }
    assert(fe.subrange(0, fe.len() - 9) =~= file_stem(p));
    assert(e.subrange(0, s) =~= p.subrange(0, s));
    lemma_skip_back_prefix(e, p, b, s);
    let pe = parent_end(p);
    lemma_skip_back_bounds(p, b, s);
    assert(e.subrange(0, pe) =~= p.subrange(0, pe));
}

/// A path whose extension is `ARW` and which is already in the form that
/// setting its file name gives (no doubled separator or `.` component
/// before its file name, nothing after it) comes back from encoding's
/// default name through decoding's.
pub proof fn lemma_decoded_path_of_encoded_is_the_path(p: Seq<char>)
    requires
        has_file_name(p),
        file_name(p) == file_stem(p) + seq!['.', 'A', 'R', 'W'],
        with_file_name(p, file_name(p)) == p,
    ensures
        spec_decoded_output_path(spec_encoded_output_path(p)) == p,
{
    lemma_decoded_path_of_encoded(p);
}

/// The components of `p` after its body start `b` that lie before `pos`, in
/// order: the pieces between separators, with empty and `.` pieces dropped
/// (`..` is kept).
pub open spec fn pieces_before(p: Seq<char>, b: int, pos: int) -> Seq<Seq<char>>
    decreases pos,
{
    let q = skip_back(p, b, pos);
    if q <= b || q > pos {
        Seq::empty()
    } else {
        let s = piece_start(p, b, q);
        if s >= q || s < 0 {
            Seq::empty()
        } else {
            pieces_before(p, b, s).push(p.subrange(s, q))
        }
    }
}

/// The components of `p`, as `Path::components` reads them on Unix and as
/// `==` on paths compares them: its root `/` or leading `.` (as text, empty
/// when it has neither), then its pieces.
pub open spec fn path_components(p: Seq<char>) -> (Seq<char>, Seq<Seq<char>>) {
    (p.subrange(0, body_start(p)), pieces_before(p, body_start(p), p.len() as int))
}

/// `piece_start` reads only what lies before `pos`.
proof fn lemma_piece_start_prefix(p: Seq<char>, q: Seq<char>, b: int, pos: int)
    requires
        pos <= p.len(),
        pos <= q.len(),
        p.subrange(0, pos) == q.subrange(0, pos),
    ensures
        piece_start(p, b, pos) == piece_start(q, b, pos),
    decreases pos,
{
    if pos > b && pos > 0 {
        assert(p[pos - 1] == p.subrange(0, pos)[pos - 1]);
        assert(q[pos - 1] == q.subrange(0, pos)[pos - 1]);
        assert(p.subrange(0, pos - 1) =~= p.subrange(0, pos).subrange(0, pos - 1));
        assert(q.subrange(0, pos - 1) =~= q.subrange(0, pos).subrange(0, pos - 1));
        lemma_piece_start_prefix(p, q, b, pos - 1);
    }
}

/// The components before `pos` depend only on what lies before `pos`.
proof fn lemma_pieces_prefix(p: Seq<char>, q: Seq<char>, b: int, pos: int)
    requires
        0 <= b,
        pos <= p.len(),
        pos <= q.len(),
        p.subrange(0, pos) == q.subrange(0, pos),
    ensures
        pieces_before(p, b, pos) == pieces_before(q, b, pos),
    decreases pos,
{
    lemma_skip_back_prefix(p, q, b, pos);
    let t = skip_back(p, b, pos);
    if t > b && t <= pos {
        assert(p.subrange(0, t) =~= p.subrange(0, pos).subrange(0, t));
        assert(q.subrange(0, t) =~= q.subrange(0, pos).subrange(0, t));
        lemma_piece_start_prefix(p, q, b, t);
        let s = piece_start(p, b, t);
        if s < t {
            lemma_piece_start_bounds(p, b, t);
            assert(p.subrange(0, s) =~= p.subrange(0, pos).subrange(0, s));
            assert(q.subrange(0, s) =~= q.subrange(0, pos).subrange(0, s));
            lemma_pieces_prefix(p, q, b, s);
            assert(p.subrange(s, t) =~= p.subrange(0, pos).subrange(s, t));
            assert(q.subrange(s, t) =~= q.subrange(0, pos).subrange(s, t));
        }
    }
}

/// Trailing separators and `.` components add no component.
proof fn lemma_pieces_skip(p: Seq<char>, b: int, pos: int)
    requires
        0 <= b <= pos,
    ensures
        pieces_before(p, b, skip_back(p, b, pos)) == pieces_before(p, b, pos),
{
    let t = skip_back(p, b, pos);
    lemma_skip_back_bounds(p, b, pos);
    lemma_skip_back_stops(p, b, pos);
    assert(skip_back(p, b, t) == t);
}

/// A path whose extension is `ARW` comes back from encoding's default name
/// through decoding's as the same path, component for component (as paths
/// compare): only doubled separators and `.` components before its file
/// name, and separators after it, may differ in the text.
pub proof fn lemma_decoded_path_of_encoded_same_components(p: Seq<char>)
    requires
        has_file_name(p),
        file_name(p) == file_stem(p) + seq!['.', 'A', 'R', 'W'],
    ensures
        path_components(spec_decoded_output_path(spec_encoded_output_path(p))) == path_components(p),
{
    lemma_decoded_path_of_encoded(p);
    let b = body_start(p);
    let e = name_end(p);
    let s = name_start(p);
    let n = file_name(p);
    let pe = parent_end(p);
    let len = p.len() as int;
    lemma_skip_back_bounds(p, b, len);
    lemma_skip_back_stops(p, b, len);
    lemma_piece_start_bounds(p, b, e);
    lemma_skip_back_bounds(p, b, s);
    lemma_skip_back_stops(p, b, s);
    assert(s < e);
    assert(n.len() >= 4 && n.last() == 'W');
    let sep: Seq<char> = if pe > 0 && p[pe - 1] != '/' {
        seq!['/']
    } else {
        Seq::empty()
    };
    let x = with_file_name(p, n);
    assert(x == p.subrange(0, pe) + sep + n);
    let t = pe + sep.len();
    let xl = x.len() as int;
    assert(xl == t + n.len());
    assert forall|m: int| 0 <= m < pe implies x[m] == p[m] by {}
    assert forall|j: int| 0 <= j < n.len() implies x[t + j] == n[j] && n[j] == p[s + j] by {}
    assert(sep.len() == 1 ==> x[pe] == '/');
    // The body start is the same.
    if pe == 0 {
        assert(b == 0);
        assert(x[0] == p[s] && x[1] == p[s + 1]);
        assert(body_start(x) == 0);
    } else if pe == 1 && p[0] == '.' {
        assert(b == 1) by {
            if b == 0 {
                assert(skippable(p, b, 1));
            }
        }
        assert(x[1] == '/');
        assert(body_start(x) == 1);
    } else {
        assert(x[0] == p[0]);
        if pe >= 2 {
            assert(x[1] == p[1]);
        }
        assert(body_start(x) == b);
    }
    // The last component of `x` is `n`, after the parent's.
    assert(!skippable(x, b, xl));
    assert(skip_back(x, b, xl) == xl);
    assert forall|m: int| t <= m < xl implies x[m] != '/' by {
        assert(x[m] == n[m - t]);
        assert(p[s + (m - t)] != '/');
    }
    assert(t == b || x[t - 1] == '/');
    lemma_piece_start_at(x, b, t, xl);
    assert(x.subrange(t, xl) =~= n);
    assert(pieces_before(x, b, xl) == pieces_before(x, b, t).push(n));
    if sep.len() == 1 {
        assert(skippable(x, b, t));
        assert(skip_back(x, b, t) == skip_back(x, b, pe));
        lemma_pieces_skip(x, b, t);
        lemma_pieces_skip(x, b, pe);
        lemma_skip_back_bounds(x, b, pe);
    }
    assert(pieces_before(x, b, t) == pieces_before(x, b, pe));
    assert(x.subrange(0, pe) =~= p.subrange(0, pe));
    lemma_pieces_prefix(x, p, b, pe);
    // The same holds of `p`.
    assert(pieces_before(p, b, len) == pieces_before(p, b, s).push(n));
    lemma_pieces_skip(p, b, s);
    assert(x.subrange(0, b) =~= p.subrange(0, b));
}

/// Whether a path ends, ignoring ASCII case, with `.arwc.jpg`.
pub fn has_encoded_extension(path: &str) -> (b: bool)
    ensures
        b == ends_with_encoded_suffix(path@),
{
    let v = chars_of(path);
    assert(v@.subrange(0, v@.len() as int) =~= v@);
    ends_with_suffix(&v, v.len())
}

} // verus!
