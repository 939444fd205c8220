use vstd::prelude::*;
use crate::mesh::TriangleIndices;

verus! {

/// Largest index accepted in a face record.
pub const MAX_FACE_INDEX: u64 = 0xFFFF_FFFF;

pub open spec fn is_digit(c: u8) -> bool {
    48 <= c <= 57
}

/// The value of a string of decimal digits.
pub open spec fn digits_value(s: Seq<u8>) -> int
    decreases s.len(),
{
    if s.len() == 0 {
        0
    } else {
        digits_value(s.drop_last()) * 10 + (s.last() - 48)
    }
}

/// A non-empty string of digits naming an index from 1 to `MAX_FACE_INDEX`.
pub open spec fn index_field_ok(s: Seq<u8>) -> bool {
    &&& s.len() > 0
    &&& forall|i: int| 0 <= i < s.len() ==> is_digit(#[trigger] s[i])
    &&& 1 <= digits_value(s) <= MAX_FACE_INDEX
}

/// The parts of `s` between its `/` bytes.
pub open spec fn split_slash(s: Seq<u8>) -> Seq<Seq<u8>>
    decreases s.len(),
{
    if s.len() == 0 {
        seq![Seq::<u8>::empty()]
    } else {
        let prev = split_slash(s.drop_last());
        if s.last() == 47 {
            prev.push(Seq::<u8>::empty())
        } else {
            prev.update(prev.len() - 1, prev.last().push(s.last()))
        }
    }
}

/// The zero-based indices named by a face corner `v/vt/vn` (one-based in the
/// file), or `None` when the token is not three such indices.
pub open spec fn face_corner_of(s: Seq<u8>) -> Option<(int, int, int)> {
    let f = split_slash(s);
    if f.len() == 3 && index_field_ok(f[0]) && index_field_ok(f[1]) && index_field_ok(f[2]) {
        Some((digits_value(f[0]) - 1, digits_value(f[1]) - 1, digits_value(f[2]) - 1))
    } else {
        None
    }
}

proof fn lemma_split_nonempty(s: Seq<u8>)
    ensures
        split_slash(s).len() >= 1,
    decreases s.len(),
{
    if s.len() > 0 {
        lemma_split_nonempty(s.drop_last());
    }
}

proof fn lemma_digits_value_grows(s: Seq<u8>, c: u8)
    requires
        is_digit(c),
        digits_value(s) >= 0,
    ensures
        digits_value(s.push(c)) == digits_value(s) * 10 + (c - 48),
        digits_value(s.push(c)) >= digits_value(s),
{
    assert(s.push(c).drop_last() =~= s);
    let v = digits_value(s);
    assert(v * 10 + (c - 48) >= v) by (nonlinear_arith)
        requires
            v >= 0,
            c >= 48,
    ;
}

proof fn lemma_digits_nonneg(s: Seq<u8>)
    requires
        forall|i: int| 0 <= i < s.len() ==> is_digit(#[trigger] s[i]),
    ensures
        digits_value(s) >= 0,
    decreases s.len(),
{
    if s.len() > 0 {
        lemma_digits_nonneg(s.drop_last());
    }
}

/// Once a prefix of digits is past the bound, so is every longer string of digits.
proof fn lemma_digits_value_monotone(s: Seq<u8>, n: int)
    requires
        0 <= n <= s.len(),
        forall|i: int| 0 <= i < s.len() ==> is_digit(#[trigger] s[i]),
    ensures
        digits_value(s.take(n)) <= digits_value(s),
    decreases s.len() - n,
{
    if n == s.len() {
        assert(s.take(n) =~= s);
    } else {
        lemma_digits_value_monotone(s, n + 1);
        assert(s.take(n + 1) =~= s.take(n).push(s[n]));
        assert(is_digit(s[n]));
        lemma_digits_nonneg(s.take(n));
        lemma_digits_value_grows(s.take(n), s[n]);
    }
}

/// Parses one field: the index it names, or `None` unless it is
/// `index_field_ok`.
fn parse_index_field(s: &Vec<u8>) -> (r: Option<u64>)
    ensures
        r is Some <==> index_field_ok(s@),
        r matches Some(v) ==> v == digits_value(s@),
{
    if s.len() == 0 {
        return None;
    }
    let mut value: u64 = 0;
    let mut i: usize = 0;
    while i < s.len()
        invariant
            i <= s@.len(),
            forall|j: int| 0 <= j < i ==> is_digit(#[trigger] s@[j]),
            value == digits_value(s@.take(i as int)),
            value <= MAX_FACE_INDEX,
        decreases s@.len() - i,
    {
        let c = s[i];
        if c < 48 || c > 57 {
            assert(!is_digit(s@[i as int]));
            return None;
        }
        proof {
            assert(s@.take(i + 1) =~= s@.take(i as int).push(c));
            lemma_digits_nonneg(s@.take(i as int));
            lemma_digits_value_grows(s@.take(i as int), c);
        }
        value = value * 10 + (c - 48) as u64;
        if value > MAX_FACE_INDEX {
            proof {
                let ghost rest_digits = forall|j: int| 0 <= j < s@.len() ==> is_digit(#[trigger] s@[j]);
                if rest_digits {
                    lemma_digits_value_monotone(s@, i + 1);
                }
            }
            return None;
        }
        i += 1;
    }
    assert(s@.take(s@.len() as int) =~= s@);
    if value == 0 {
        return None;
    }
    Some(value)
}

/// Splits `s` at its `/` bytes.
fn split_fields(s: &Vec<u8>) -> (r: Vec<Vec<u8>>)
    ensures
        r@.len() == split_slash(s@).len(),
        forall|j: int| 0 <= j < r@.len() ==> (#[trigger] r@[j])@ == split_slash(s@)[j],
{
    let mut fields: Vec<Vec<u8>> = Vec::new();
    let mut current: Vec<u8> = Vec::new();
    let mut i: usize = 0;
    proof {
        assert(s@.take(0) =~= Seq::<u8>::empty());
    }
    while i < s.len()
        invariant
            i <= s@.len(),
            fields@.len() + 1 == split_slash(s@.take(i as int)).len(),
            forall|j: int|
                0 <= j < fields@.len() ==> (#[trigger] fields@[j])@ == split_slash(s@.take(i as int))[j],
            current@ == split_slash(s@.take(i as int)).last(),
        decreases s@.len() - i,
    {
        let c = s[i];
        proof {
            assert(s@.take(i + 1).drop_last() =~= s@.take(i as int));
            lemma_split_nonempty(s@.take(i as int));
        }
        if c == 47 {
            fields.push(current);
            current = Vec::new();
            proof {
                assert(current@ =~= Seq::<u8>::empty());
            }
        } else {
            current.push(c);
        }
        i += 1;
    }
    proof {
        assert(s@.take(s@.len() as int) =~= s@);
    }
    fields.push(current);
    fields
}

/// Parses a face corner `v/vt/vn` into zero-based indices.
pub fn parse_face_corner(token: &Vec<u8>) -> (r: Option<(usize, usize, usize)>)
    ensures
        match face_corner_of(token@) {
            None => r is None,
            Some((a, b, c)) => r == Some((a as usize, b as usize, c as usize)),
        },
{
    let fields = split_fields(token);
    if fields.len() != 3 {
        return None;
    }
    let a = parse_index_field(&fields[0]);
    let b = parse_index_field(&fields[1]);
    let c = parse_index_field(&fields[2]);
    match (a, b, c) {
        (Some(a), Some(b), Some(c)) => Some(((a - 1) as usize, (b - 1) as usize, (c - 1) as usize)),
        _ => None,
    }
}

/// Parses the three corners of a face record (the words after `f`):
/// vertex, uv and normal indices of each corner; `None` unless there are
/// exactly three well-formed corners.
pub fn parse_face(corners: &Vec<Vec<u8>>) -> (r: Option<TriangleIndices>)
    ensures
        r is Some <==> (corners@.len() == 3 && face_corner_of(corners@[0]@) is Some
            && face_corner_of(corners@[1]@) is Some && face_corner_of(corners@[2]@) is Some),
        r matches Some(t) ==> {
            let p = face_corner_of(corners@[0]@).unwrap();
            let q = face_corner_of(corners@[1]@).unwrap();
            let s = face_corner_of(corners@[2]@).unwrap();
            &&& t.vertex_indices == (p.0 as usize, q.0 as usize, s.0 as usize)
            &&& t.uv_indices == (p.1 as usize, q.1 as usize, s.1 as usize)
            &&& t.normal_indices == (p.2 as usize, q.2 as usize, s.2 as usize)
        },
{
    if corners.len() != 3 {
        return None;
    }
    let p = parse_face_corner(&corners[0]);
    let q = parse_face_corner(&corners[1]);
    let s = parse_face_corner(&corners[2]);
    match (p, q, s) {
        (Some(p), Some(q), Some(s)) => Some(
            TriangleIndices::new((p.0, q.0, s.0), (p.2, q.2, s.2), (p.1, q.1, s.1)),
        ),
        _ => None,
    }
}

/// The line gives `key` a value: its first word is `key` and a second word follows.
pub open spec fn names(line: Seq<Vec<u8>>, key: Seq<u8>) -> bool {
    line.len() >= 2 && line[0]@ == key
}

/// The value that the first line naming `key` gives it (each line given as
/// its words), as a file in a material or object description refers to
/// another file (`mtllib`, `map_Kd`).
pub fn find_reference(lines: &Vec<Vec<Vec<u8>>>, key: &Vec<u8>) -> (r: Option<Vec<u8>>)
    ensures
        r is None <==> forall|i: int| 0 <= i < lines@.len() ==> !names(#[trigger] lines@[i]@, key@),
        r matches Some(v) ==> exists|i: int|
            0 <= i < lines@.len() && names(#[trigger] lines@[i]@, key@) && v@ == lines@[i]@[1]@
                && forall|j: int| 0 <= j < i ==> !names(lines@[j]@, key@),
{
    let mut i: usize = 0;
    while i < lines.len()
        invariant
            i <= lines@.len(),
            forall|j: int| 0 <= j < i ==> !names(#[trigger] lines@[j]@, key@),
        decreases lines@.len() - i,
    {
        let line = &lines[i];
        if line.len() >= 2 && bytes_equal(&line[0], key) {
            let v = copy_bytes(&line[1]);
            assert(names(lines@[i as int]@, key@));
            return Some(v);
        }
        i += 1;
    }
    None
}

/// A copy of `a`.
fn copy_bytes(a: &Vec<u8>) -> (r: Vec<u8>)
    ensures
        r@ == a@,
{
    let mut r: Vec<u8> = Vec::new();
    let mut i: usize = 0;
    while i < a.len()
        invariant
            i <= a@.len(),
            r@ == a@.take(i as int),
        decreases a@.len() - i,
    {
        r.push(a[i]);
        proof {
            assert(a@.take(i + 1) =~= a@.take(i as int).push(a@[i as int]));
        }
        i += 1;
    }
    assert(a@.take(a@.len() as int) =~= a@);
    r
}

/// Byte-wise equality.
fn bytes_equal(a: &Vec<u8>, b: &Vec<u8>) -> (r: bool)
    ensures
        r == (a@ == b@),
{
    if a.len() != b.len() {
        return false;
    }
    let mut i: usize = 0;
    while i < a.len()
        invariant
            a@.len() == b@.len(),
            i <= a@.len(),
            forall|j: int| 0 <= j < i ==> a@[j] == b@[j],
        decreases a@.len() - i,
    {
        if a[i] != b[i] {
            return false;
        }
        i += 1;
    }
    assert(a@ =~= b@);
    true
}

/// Length of the directory part of `path`: up to and including its last `/`
/// (zero when there is none).
pub open spec fn dir_len(path: Seq<u8>) -> int
    decreases path.len(),
{
    if path.len() == 0 {
        0
    } else if path.last() == 47 {
        path.len() as int
    } else {
        dir_len(path.drop_last())
    }
}

/// The path of the file `name` in the directory of the file `path`.
pub fn sibling_path(path: &Vec<u8>, name: &Vec<u8>) -> (r: Vec<u8>)
    ensures
        r@ == path@.take(dir_len(path@)) + name@,
{
    let mut n = path.len();
    proof {
        assert(path@.take(n as int) =~= path@);
    }
    while n > 0 && path[n - 1] != 47
        invariant
            n <= path@.len(),
            dir_len(path@) == dir_len(path@.take(n as int)),
        decreases n,
    {
        proof {
            assert(path@.take(n as int).drop_last() =~= path@.take(n - 1));
        }
        n -= 1;
    }
    proof {
        if n > 0 {
            assert(path@.take(n as int).last() == 47);
        }
    }
    let mut r = copy_bytes(path);
    r.truncate(n);
    let mut j: usize = 0;
    assert(r@ =~= path@.take(n as int) + name@.take(0));
    while j < name.len()
        invariant
            j <= name@.len(),
            r@ == path@.take(n as int) + name@.take(j as int),
        decreases name@.len() - j,
    {
        r.push(name[j]);
        proof {
            assert(path@.take(n as int) + name@.take(j + 1) =~= (path@.take(n as int) + name@.take(
                j as int,
            )).push(name@[j as int]));
        }
        j += 1;
    }
    assert(name@.take(name@.len() as int) =~= name@);
    r
}

} // verus!
