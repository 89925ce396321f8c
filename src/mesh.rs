//! The wireframe mesh format: a line-oriented text where `v x y z` lines
//! give vertices and `f a/.. b/.. c/..` lines give triangles by 1-based
//! vertex number. Unrecognised or short lines are ignored.

use vstd::prelude::*;
use vstd::string::StringSliceAdditionalSpecFns;

verus! {

/// ASCII whitespace: space, tab, line feed, vertical tab, form feed and
/// carriage return.
pub open spec fn is_space(b: u8) -> bool {
    b == 32 || (9 <= b && b <= 13)
}

/// Tells whether `b` is ASCII whitespace.
fn space(b: u8) -> (r: bool)
    ensures
        r == is_space(b),
{
    b == 32 || (9 <= b && b <= 13)
}

/// `s` without its leading whitespace.
pub open spec fn trim_front(s: Seq<u8>) -> Seq<u8>
    decreases s.len(),
{
    if s.len() > 0 && is_space(s[0]) {
        trim_front(s.drop_first())
    } else {
        s
    }
}

/// `s` without its trailing whitespace.
pub open spec fn trim_back(s: Seq<u8>) -> Seq<u8>
    decreases s.len(),
{
    if s.len() > 0 && is_space(s.last()) {
        trim_back(s.drop_last())
    } else {
        s
    }
}

/// `s` without whitespace at either end.
pub open spec fn trim(s: Seq<u8>) -> Seq<u8> {
    trim_back(trim_front(s))
}

/// The whitespace-separated fields of `s`, where `cur` is the part of a
/// field already read.
pub open spec fn fields_from(s: Seq<u8>, cur: Seq<u8>) -> Seq<Seq<u8>>
    decreases s.len(),
{
    if s.len() == 0 {
        if cur.len() > 0 { seq![cur] } else { Seq::empty() }
    } else if is_space(s[0]) {
        (if cur.len() > 0 { seq![cur] } else { Seq::empty() }) + fields_from(s.drop_first(), Seq::empty())
    } else {
        fields_from(s.drop_first(), cur.push(s[0]))
    }
}

/// The non-empty runs of non-whitespace bytes of `s`, in order.
pub open spec fn fields(s: Seq<u8>) -> Seq<Seq<u8>> {
    fields_from(s, Seq::empty())
}

/// Returns the bounds `(a, b)` of `s[lo..hi]` with whitespace cut off at
/// both ends.
fn trim_range(s: &[u8], lo: usize, hi: usize) -> (r: (usize, usize))
    requires
        lo <= hi <= s@.len(),
    ensures
        lo <= r.0 <= r.1 <= hi,
        s@.subrange(r.0 as int, r.1 as int) == trim(s@.subrange(lo as int, hi as int)),
{
    let mut a = lo;
    while a < hi && space(s[a])
        invariant
            lo <= a <= hi <= s@.len(),
            trim_front(s@.subrange(a as int, hi as int)) == trim_front(s@.subrange(lo as int, hi as int)),
        decreases hi - a,
    {
        assert(s@.subrange(a as int, hi as int).drop_first() =~= s@.subrange(a + 1, hi as int));
        a = a + 1;
    }
    let ghost front = s@.subrange(a as int, hi as int);
    assert(trim_front(front) == front);
    let mut b = hi;
    while b > a && space(s[b - 1])
        invariant
            lo <= a <= b <= hi <= s@.len(),
            front == s@.subrange(a as int, hi as int),
            trim_back(s@.subrange(a as int, b as int)) == trim_back(front),
        decreases b - a,
    {
        assert(s@.subrange(a as int, b as int).drop_last() =~= s@.subrange(a as int, b - 1));
        b = b - 1;
    }
    (a, b)
}

/// Splits `s[lo..hi]` at whitespace and returns the bounds of each field.
fn split_fields(s: &[u8], lo: usize, hi: usize) -> (r: Vec<(usize, usize)>)
    requires
        lo <= hi <= s@.len(),
    ensures
        r@.len() == fields(s@.subrange(lo as int, hi as int)).len(),
        forall|k: int|
            0 <= k < r@.len() ==> lo <= #[trigger] r@[k].0 <= r@[k].1 <= hi && s@.subrange(r@[k].0 as int, r@[k].1 as int)
                == fields(s@.subrange(lo as int, hi as int))[k],
{
    let ghost all = fields(s@.subrange(lo as int, hi as int));
    let mut out: Vec<(usize, usize)> = Vec::new();
    let mut in_field = false;
    let mut start: usize = lo;
    let mut i: usize = lo;
    let ghost mut got: Seq<Seq<u8>> = Seq::empty();
    assert(s@.subrange(lo as int, lo as int) =~= Seq::<u8>::empty());
    while i < hi
        invariant
            lo <= start <= i <= hi <= s@.len(),
            in_field ==> start < i,
            got.len() == out@.len(),
            forall|k: int|
                0 <= k < out@.len() ==> lo <= #[trigger] out@[k].0 <= out@[k].1 <= hi && s@.subrange(out@[k].0 as int, out@[k].1 as int)
                    == got[k],
            got + fields_from(
                s@.subrange(i as int, hi as int),
                if in_field { s@.subrange(start as int, i as int) } else { Seq::empty() },
            ) == all,
        decreases hi - i,
    {
        let ghost rest = s@.subrange(i as int, hi as int);
        let ghost cur = if in_field { s@.subrange(start as int, i as int) } else { Seq::<u8>::empty() };
        assert(rest.drop_first() =~= s@.subrange(i + 1, hi as int));
        assert(rest[0] == s@[i as int]);
        if space(s[i]) {
            if in_field {
                out.push((start, i));
                proof {
                    assert(got.push(cur) + fields_from(rest.drop_first(), Seq::empty()) =~= got + (seq![cur]
                        + fields_from(rest.drop_first(), Seq::empty())));
                    got = got.push(cur);
                }
            } else {
                assert(Seq::<Seq<u8>>::empty() + fields_from(rest.drop_first(), Seq::empty()) =~= fields_from(
                    rest.drop_first(),
                    Seq::empty(),
                ));
            }
            in_field = false;
        } else {
            if !in_field {
                start = i;
                in_field = true;
            }
            assert(cur.push(s@[i as int]) =~= s@.subrange(start as int, i + 1));
        }
        i = i + 1;
    }
    let ghost cur = if in_field { s@.subrange(start as int, i as int) } else { Seq::<u8>::empty() };
    assert(s@.subrange(i as int, hi as int) =~= Seq::<u8>::empty());
    if in_field {
        out.push((start, i));
        proof {
            got = got.push(cur);
        }
    } else {
        assert(got + Seq::<Seq<u8>>::empty() =~= got);
    }
    assert(got =~= all);
    out
}

/// The part of `f` before its first `/`.
pub open spec fn before_slash(f: Seq<u8>) -> Seq<u8>
    decreases f.len(),
{
    if f.len() == 0 || f[0] == 47 {
        Seq::empty()
    } else {
        seq![f[0]] + before_slash(f.drop_first())
    }
}

/// The part before the first `/` is the prefix up to any index `j` that
/// holds the first `/`, or the end.
proof fn lemma_before_slash(f: Seq<u8>, j: int)
    requires
        0 <= j <= f.len(),
        forall|k: int| 0 <= k < j ==> f[k] != 47,
        j == f.len() || f[j] == 47,
    ensures
        before_slash(f) == f.take(j),
    decreases j,
{
    if j > 0 {
        lemma_before_slash(f.drop_first(), j - 1);
        assert(seq![f[0]] + f.drop_first().take(j - 1) =~= f.take(j));
    } else {
        assert(f.take(0) =~= Seq::<u8>::empty());
    }
}

/// Every byte of `s` is an ASCII decimal digit.
pub open spec fn all_digits(s: Seq<u8>) -> bool {
    forall|k: int| 0 <= k < s.len() ==> 48 <= #[trigger] s[k] <= 57
}

/// The number that the decimal digits `s` spell.
pub open spec fn digits_value(s: Seq<u8>) -> nat
    decreases s.len(),
{
    if s.len() == 0 {
        0
    } else {
        digits_value(s.drop_last()) * 10 + (s.last() - 48) as nat
    }
}

/// An unsigned decimal as `usize` reads it: an optional `+`, then one or
/// more digits whose value fits in `usize`.
pub open spec fn parse_usize(d: Seq<u8>) -> Option<nat> {
    let body = if d.len() > 0 && d[0] == 43 { d.drop_first() } else { d };
    if body.len() > 0 && all_digits(body) && digits_value(body) <= usize::MAX {
        Some(digits_value(body))
    } else {
        None
    }
}

/// The 0-based vertex index named by a face field such as `12/4/7`: the
/// 1-based number before the first `/`, less one (saturating at zero).
pub open spec fn face_index(f: Seq<u8>) -> Option<nat> {
    let first = before_slash(f);
    if first.len() == 0 {
        None
    } else {
        match parse_usize(first) {
            Some(v) => Some(if v == 0 { 0 } else { (v - 1) as nat }),
            None => None,
        }
    }
}

/// An optional machine index as an optional natural number.
pub open spec fn opt_nat(o: Option<usize>) -> Option<nat> {
    match o {
        Some(v) => Some(v as nat),
        None => None,
    }
}

/// Reads the face index in `s[lo..hi]`.
fn parse_index(s: &[u8], lo: usize, hi: usize) -> (r: Option<usize>)
    requires
        lo <= hi <= s@.len(),
    ensures
        opt_nat(r) == face_index(s@.subrange(lo as int, hi as int)),
{
    let ghost f = s@.subrange(lo as int, hi as int);
    let mut j = lo;
    while j < hi && s[j] != 47
        invariant
            lo <= j <= hi <= s@.len(),
            forall|k: int| lo <= k < j ==> s@[k] != 47,
        decreases hi - j,
    {
        j = j + 1;
    }
    proof {
        lemma_before_slash(f, j - lo);
        assert(f.take(j - lo) =~= s@.subrange(lo as int, j as int));
    }
    let ghost first = s@.subrange(lo as int, j as int);
    if j == lo {
        return None;
    }
    let mut k = lo;
    if s[k] == 43 {
        k = k + 1;
        assert(first.drop_first() =~= s@.subrange(k as int, j as int));
    }
    let ghost body = s@.subrange(k as int, j as int);
    assert(body =~= if first.len() > 0 && first[0] == 43 { first.drop_first() } else { first });
    if k == j {
        return None;
    }
    let bstart = k;
    let mut value: usize = 0;
    let mut overflow = false;
    assert(s@.subrange(bstart as int, bstart as int) =~= Seq::<u8>::empty());
    while k < j
        invariant
            lo <= bstart <= k <= j <= hi <= s@.len(),
            body == s@.subrange(bstart as int, j as int),
            f == s@.subrange(lo as int, hi as int),
            first == s@.subrange(lo as int, j as int),
            before_slash(f) == first,
            first.len() > 0,
            body == (if first.len() > 0 && first[0] == 43 { first.drop_first() } else { first }),
            all_digits(s@.subrange(bstart as int, k as int)),
            !overflow ==> value == digits_value(s@.subrange(bstart as int, k as int)),
            overflow ==> digits_value(s@.subrange(bstart as int, k as int)) > usize::MAX,
        decreases j - k,
    {
        let b = s[k];
        if b < 48 || b > 57 {
            assert(body[k - bstart] == b);
            return None;
        }
        let ghost pre = s@.subrange(bstart as int, k as int);
        let ghost next = s@.subrange(bstart as int, k + 1);
        assert(next.drop_last() =~= pre);
        assert(digits_value(next) == digits_value(pre) * 10 + (b - 48) as nat);
        if !overflow {
            match value.checked_mul(10) {
                Some(m) => match m.checked_add((b - 48) as usize) {
                    Some(v) => {
                        value = v;
                    },
                    None => {
                        overflow = true;
                    },
                },
                None => {
                    assert(digits_value(next) > usize::MAX) by (nonlinear_arith)
                        requires
                            value * 10 > usize::MAX,
                            digits_value(next) == value * 10 + (b - 48) as nat,
                            b >= 48,
                    ;
                    overflow = true;
                },
            }
        } else {
            assert(digits_value(next) > usize::MAX) by (nonlinear_arith)
                requires
                    digits_value(pre) > usize::MAX,
                    digits_value(next) == digits_value(pre) * 10 + (b - 48) as nat,
                    b >= 48,
            ;
        }
        k = k + 1;
        assert forall|q: int| 0 <= q < next.len() implies 48 <= #[trigger] next[q] <= 57 by {
            if q < pre.len() {
                assert(next[q] == pre[q]);
            }
        }
    }
    if overflow {
        None
    } else if value == 0 {
        Some(0)
    } else {
        Some(value - 1)
    }
}

/// The three coordinate fields of a vertex line, as written.
pub struct VertexFields {
    pub x: Vec<u8>,
    pub y: Vec<u8>,
    pub z: Vec<u8>,
}

/// A triangle mesh: the coordinate text of each vertex, and triangles as
/// 0-based vertex indices.
pub struct Mesh {
    pub verts: Vec<VertexFields>,
    pub faces: Vec<[usize; 3]>,
}

/// The coordinate texts of a vertex.
pub open spec fn vertex_view(v: VertexFields) -> (Seq<u8>, Seq<u8>, Seq<u8>) {
    (v.x@, v.y@, v.z@)
}

/// The three vertex indices of a face.
pub open spec fn face_view(f: [usize; 3]) -> (nat, nat, nat) {
    (f[0] as nat, f[1] as nat, f[2] as nat)
}

/// The vertex that a line defines: a trimmed line that starts with `v `
/// and has at least four fields gives its second, third and fourth.
pub open spec fn line_vertex(line: Seq<u8>) -> Option<(Seq<u8>, Seq<u8>, Seq<u8>)> {
    let t = trim(line);
    let f = fields(t);
    if t.len() >= 2 && t[0] == 118 && t[1] == 32 && f.len() >= 4 {
        Some((f[1], f[2], f[3]))
    } else {
        None
    }
}

/// The face that a line defines: a trimmed line that starts with `f `, has
/// at least four fields, and whose second, third and fourth fields each
/// name a vertex index.
pub open spec fn line_face(line: Seq<u8>) -> Option<(nat, nat, nat)> {
    let t = trim(line);
    let f = fields(t);
    if t.len() >= 2 && t[0] == 102 && t[1] == 32 && f.len() >= 4 && face_index(f[1]) is Some
        && face_index(f[2]) is Some && face_index(f[3]) is Some {
        Some((face_index(f[1])->0, face_index(f[2])->0, face_index(f[3])->0))
    } else {
        None
    }
}

/// The one value an option holds, or nothing.
pub open spec fn opt_seq<T>(o: Option<T>) -> Seq<T> {
    match o {
        Some(v) => seq![v],
        None => Seq::empty(),
    }
}

/// The lines of `s` split at line feeds, where `cur` is the part of a line
/// already read.
pub open spec fn lines_from(s: Seq<u8>, cur: Seq<u8>) -> Seq<Seq<u8>>
    decreases s.len(),
{
    if s.len() == 0 {
        seq![cur]
    } else if s[0] == 10 {
        seq![cur] + lines_from(s.drop_first(), Seq::empty())
    } else {
        lines_from(s.drop_first(), cur.push(s[0]))
    }
}

/// The vertices that `lines` define, in order.
pub open spec fn mesh_verts(lines: Seq<Seq<u8>>) -> Seq<(Seq<u8>, Seq<u8>, Seq<u8>)>
    decreases lines.len(),
{
    if lines.len() == 0 {
        Seq::empty()
    } else {
        opt_seq(line_vertex(lines[0])) + mesh_verts(lines.drop_first())
    }
}

/// The faces that `lines` define, in order.
pub open spec fn mesh_faces(lines: Seq<Seq<u8>>) -> Seq<(nat, nat, nat)>
    decreases lines.len(),
{
    if lines.len() == 0 {
        Seq::empty()
    } else {
        opt_seq(line_face(lines[0])) + mesh_faces(lines.drop_first())
    }
}

/// Copies `s[lo..hi]`.
fn copy_range(s: &[u8], lo: usize, hi: usize) -> (r: Vec<u8>)
    requires
        lo <= hi <= s@.len(),
    ensures
        r@ == s@.subrange(lo as int, hi as int),
{
    let mut out: Vec<u8> = Vec::with_capacity(hi - lo);
    let mut i = lo;
    while i < hi
        invariant
            lo <= i <= hi <= s@.len(),
            out@ == s@.subrange(lo as int, i as int),
        decreases hi - i,
    {
        out.push(s[i]);
        i = i + 1;
        assert(out@ =~= s@.subrange(lo as int, i as int));
    }
    out
}

/// Adds what the line `s[lo..hi]` defines to `verts` or `faces`.
fn read_line(s: &[u8], lo: usize, hi: usize, verts: &mut Vec<VertexFields>, faces: &mut Vec<[usize; 3]>)
    requires
        lo <= hi <= s@.len(),
    ensures
        final(verts)@.map_values(|v: VertexFields| vertex_view(v)) == old(verts)@.map_values(
            |v: VertexFields| vertex_view(v),
        ) + opt_seq(line_vertex(s@.subrange(lo as int, hi as int))),
        final(faces)@.map_values(|f: [usize; 3]| face_view(f)) == old(faces)@.map_values(
            |f: [usize; 3]| face_view(f),
        ) + opt_seq(line_face(s@.subrange(lo as int, hi as int))),
{
    let ghost line = s@.subrange(lo as int, hi as int);
    let ghost vs0 = verts@.map_values(|v: VertexFields| vertex_view(v));
    let ghost fs0 = faces@.map_values(|f: [usize; 3]| face_view(f));
    let (a, b) = trim_range(s, lo, hi);
    let ghost t = s@.subrange(a as int, b as int);
    assert(vs0 + Seq::empty() =~= vs0);
    assert(fs0 + Seq::empty() =~= fs0);
    if a == b || s[a] == 35 || b - a < 2 {
        return;
    }
    assert(t[0] == s@[a as int] && t[1] == s@[a + 1]);
    if s[a] == 118 && s[a + 1] == 32 {
        let parts = split_fields(s, a, b);
        if parts.len() >= 4 {
            let x = copy_range(s, parts[1].0, parts[1].1);
            let y = copy_range(s, parts[2].0, parts[2].1);
            let z = copy_range(s, parts[3].0, parts[3].1);
            let v = VertexFields { x, y, z };
            verts.push(v);
            assert(verts@.map_values(|v: VertexFields| vertex_view(v)) =~= vs0 + opt_seq(line_vertex(line)));
        }
    } else if s[a] == 102 && s[a + 1] == 32 {
        let parts = split_fields(s, a, b);
        if parts.len() >= 4 {
            let i0 = parse_index(s, parts[1].0, parts[1].1);
            let i1 = parse_index(s, parts[2].0, parts[2].1);
            let i2 = parse_index(s, parts[3].0, parts[3].1);
            match (i0, i1, i2) {
                (Some(p0), Some(p1), Some(p2)) => {
                    faces.push([p0, p1, p2]);
                    assert(faces@.map_values(|f: [usize; 3]| face_view(f)) =~= fs0 + opt_seq(line_face(line)));
                },
                _ => {},
            }
        }
    }
}

/// The lines of `s`, split at line feeds.
pub open spec fn text_lines(s: Seq<u8>) -> Seq<Seq<u8>> {
    lines_from(s, Seq::empty())
}

/// A line put in front adds what it defines in front.
proof fn lemma_mesh_cons(line: Seq<u8>, rest: Seq<Seq<u8>>)
    ensures
        mesh_verts(seq![line] + rest) == opt_seq(line_vertex(line)) + mesh_verts(rest),
        mesh_faces(seq![line] + rest) == opt_seq(line_face(line)) + mesh_faces(rest),
{
    assert((seq![line] + rest).drop_first() =~= rest);
    assert((seq![line] + rest)[0] == line);
}

impl Mesh {
    /// Reads a mesh from its text: the text is split into lines at line
    /// feeds and each line trimmed; a `v` line adds a vertex and an `f` line
    /// a face, and any other line, or one with too few or unreadable
    /// fields, is skipped.
    pub fn from_obj_str(src: &str) -> (m: Mesh)
        ensures
            m.verts@.map_values(|v: VertexFields| vertex_view(v)) == mesh_verts(text_lines(src.spec_bytes())),
            m.faces@.map_values(|f: [usize; 3]| face_view(f)) == mesh_faces(text_lines(src.spec_bytes())),
    {
        let s = src.as_bytes();
        let ghost all = text_lines(s@);
        let mut verts: Vec<VertexFields> = Vec::new();
        let mut faces: Vec<[usize; 3]> = Vec::new();
        let n = s.len();
        let mut start: usize = 0;
        let mut i: usize = 0;
        assert(s@.subrange(0, n as int) =~= s@);
        assert(s@.subrange(0, 0) =~= Seq::<u8>::empty());
        assert(verts@.map_values(|v: VertexFields| vertex_view(v)) + mesh_verts(all) =~= mesh_verts(all));
        assert(faces@.map_values(|f: [usize; 3]| face_view(f)) + mesh_faces(all) =~= mesh_faces(all));
        while i < n
            invariant
                n == s@.len(),
                start <= i <= n,
                all == text_lines(s@),
                verts@.map_values(|v: VertexFields| vertex_view(v)) + mesh_verts(
                    lines_from(s@.subrange(i as int, n as int), s@.subrange(start as int, i as int)),
                ) == mesh_verts(all),
                faces@.map_values(|f: [usize; 3]| face_view(f)) + mesh_faces(
                    lines_from(s@.subrange(i as int, n as int), s@.subrange(start as int, i as int)),
                ) == mesh_faces(all),
            decreases n - i,
        {
            let ghost rest = s@.subrange(i as int, n as int);
            let ghost cur = s@.subrange(start as int, i as int);
            let ghost vs = verts@.map_values(|v: VertexFields| vertex_view(v));
            let ghost fs = faces@.map_values(|f: [usize; 3]| face_view(f));
            assert(rest.drop_first() =~= s@.subrange(i + 1, n as int));
            assert(rest[0] == s@[i as int]);
            if s[i] == 10 {
                read_line(s, start, i, &mut verts, &mut faces);
                proof {
                    let tail = lines_from(rest.drop_first(), Seq::empty());
                    lemma_mesh_cons(cur, tail);
                    assert(s@.subrange(i + 1, i + 1) =~= Seq::<u8>::empty());
                    assert(verts@.map_values(|v: VertexFields| vertex_view(v)) + mesh_verts(tail) =~= vs + (
                    opt_seq(line_vertex(cur)) + mesh_verts(tail)));
                    assert(faces@.map_values(|f: [usize; 3]| face_view(f)) + mesh_faces(tail) =~= fs + (
                    opt_seq(line_face(cur)) + mesh_faces(tail)));
                }
                start = i + 1;
            } else {
                assert(cur.push(s@[i as int]) =~= s@.subrange(start as int, i + 1));
            }
            i = i + 1;
        }
        let ghost cur = s@.subrange(start as int, n as int);
        let ghost vs = verts@.map_values(|v: VertexFields| vertex_view(v));
        let ghost fs = faces@.map_values(|f: [usize; 3]| face_view(f));
        assert(s@.subrange(n as int, n as int) =~= Seq::<u8>::empty());
        read_line(s, start, n, &mut verts, &mut faces);
        proof {
            lemma_mesh_cons(cur, Seq::empty());
            assert(seq![cur] + Seq::<Seq<u8>>::empty() =~= seq![cur]);
            assert(mesh_verts(Seq::<Seq<u8>>::empty()) =~= Seq::empty());
            assert(mesh_faces(Seq::<Seq<u8>>::empty()) =~= Seq::empty());
            assert(opt_seq(line_vertex(cur)) + Seq::empty() =~= opt_seq(line_vertex(cur)));
            assert(opt_seq(line_face(cur)) + Seq::empty() =~= opt_seq(line_face(cur)));
        }
        Mesh { verts, faces }
    }
}

} // verus!
