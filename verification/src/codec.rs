//! The generation record format: a deterministic binary encoding of a
//! generation, decodable back to an equal value.
//!
//! Integers are little-endian and fixed-width; a string is its UTF-8 byte
//! length (8 bytes) followed by its UTF-8 bytes; an optional content is a
//! one-byte tag (0 absent, 1 present) followed by the string when present;
//! a list is its element count (8 bytes) followed by the encoded elements
//! in order.  A generation is its id (4 bytes, two's complement), its
//! creation timestamp (8 bytes, two's complement), its file list and its
//! script list.

use vstd::prelude::*;
use vstd::slice::slice_subrange;
use vstd::string::{StrSliceExecFns, StringSliceAdditionalSpecFns};
use vstd::utf8::{decode_utf8, encode_utf8, valid_utf8};

use crate::config::ScriptView;
use crate::generations::{FileView, Generation, GenerationView};

verus! {

/// 256 to the power `n`: the number of values `n` bytes can carry.
pub open spec fn pow256(n: nat) -> nat
    decreases n,
{
    if n == 0 {
        1
    } else {
        256 * pow256((n - 1) as nat)
    }
}

/// The `n` little-endian bytes of `v`.
pub open spec fn enc_uint(v: nat, n: nat) -> Seq<u8>
    decreases n,
{
    if n == 0 {
        Seq::empty()
    } else {
        seq![(v % 256) as u8] + enc_uint(v / 256, (n - 1) as nat)
    }
}

/// The value carried by the `n` little-endian bytes of `b` at `i`.
pub open spec fn dec_uint(b: Seq<u8>, i: int, n: nat) -> nat
    decreases n,
{
    if n == 0 {
        0
    } else {
        (b[i] + 256 * dec_uint(b, i + 1, (n - 1) as nat)) as nat
    }
}

pub proof fn lemma_enc_uint_len(v: nat, n: nat)
    ensures
        enc_uint(v, n).len() == n,
    decreases n,
{
    if n > 0 {
        lemma_enc_uint_len(v / 256, (n - 1) as nat);
    }
}

pub proof fn lemma_dec_uint_bound(b: Seq<u8>, i: int, n: nat)
    requires
        0 <= i,
        i + n <= b.len(),
    ensures
        dec_uint(b, i, n) < pow256(n),
    decreases n,
{
    if n > 0 {
        lemma_dec_uint_bound(b, i + 1, (n - 1) as nat);
    }
}

/// Decoding reads back what encoding wrote: the `n` bytes of `v` placed at
/// `i` in `b` decode to `v` again, for every `v` that fits.
pub proof fn lemma_dec_enc_uint(b: Seq<u8>, i: int, v: nat, n: nat)
    requires
        v < pow256(n),
        0 <= i,
        i + n <= b.len(),
        b.subrange(i, i + n) == enc_uint(v, n),
    ensures
        dec_uint(b, i, n) == v,
    decreases n,
{
    lemma_enc_uint_len(v, n);
    if n > 0 {
        let rest = enc_uint(v / 256, (n - 1) as nat);
        lemma_enc_uint_len(v / 256, (n - 1) as nat);
        assert(b.subrange(i, i + n)[0] == b[i]);
        assert(b[i] == (v % 256) as u8);
        assert(b.subrange(i + 1, i + n) =~= enc_uint(v / 256, (n - 1) as nat)) by {
            assert forall|k: int| 0 <= k < n - 1 implies b.subrange(i + 1, i + n)[k] == rest[k] by {
                assert(b.subrange(i, i + n)[k + 1] == b[i + 1 + k]);
                assert((seq![(v % 256) as u8] + rest)[k + 1] == rest[k]);
            }
        }
        assert(v / 256 < pow256((n - 1) as nat)) by {
            assert(v < 256 * pow256((n - 1) as nat));
        }
        lemma_dec_enc_uint(b, i + 1, v / 256, (n - 1) as nat);
        assert(dec_uint(b, i, n) == (v % 256) + 256 * (v / 256));
        assert(v == 256 * (v / 256) + v % 256);
    }
}

/// Appends the `n` little-endian bytes of `v`.
fn write_uint(out: &mut Vec<u8>, v: u64, n: usize)
    requires
        n <= 8,
    ensures
        final(out)@ == old(out)@ + enc_uint(v as nat, n as nat),
    decreases n,
{
    if n == 0 {
        proof {
            assert(out@ =~= old(out)@ + enc_uint(v as nat, 0));
        }
    } else {
        out.push((v % 256) as u8);
        write_uint(out, v / 256, n - 1);
        proof {
            assert(out@ =~= old(out)@ + enc_uint(v as nat, n as nat));
        }
    }
}

/// Reads the `n` little-endian bytes at `pos` as a value.
fn read_uint(b: &[u8], pos: usize, n: usize) -> (r: Option<(u64, usize)>)
    requires
        pos <= b@.len(),
        n <= 8,
    ensures
        match r {
            Some((v, p)) => {
                &&& pos + n <= b@.len()
                &&& v as nat == dec_uint(b@, pos as int, n as nat)
                &&& p == pos + n
            },
            None => pos + n > b@.len(),
        },
    decreases n,
{
    if n == 0 {
        Some((0, pos))
    } else {
        if pos >= b.len() {
            return None;
        }
        let byte = *vstd::slice::slice_index_get(b, pos);
        match read_uint(b, pos + 1, n - 1) {
            Some((rest, p)) => {
                proof {
                    lemma_dec_uint_bound(b@, pos as int + 1, (n - 1) as nat);
                    lemma_pow256_values();
                    lemma_pow256_increases((n - 1) as nat, 7);
                }
                Some((byte as u64 + 256 * rest, p))
            },
            None => None,
        }
    }
}

/// Splitting a known concatenation: where `x + y` sits at `i` in `b`, `x`
/// sits at `i` and `y` right after it.
proof fn lemma_subrange_split(b: Seq<u8>, i: int, x: Seq<u8>, y: Seq<u8>)
    requires
        0 <= i,
        i + x.len() + y.len() <= b.len(),
        b.subrange(i, i + x.len() + y.len()) == x + y,
    ensures
        b.subrange(i, i + x.len()) == x,
        b.subrange(i + x.len(), i + x.len() + y.len()) == y,
{
    let whole = b.subrange(i, i + x.len() + y.len());
    assert(b.subrange(i, i + x.len()) =~= x) by {
        assert forall|k: int| 0 <= k < x.len() implies b.subrange(i, i + x.len())[k] == x[k] by {
            assert(whole[k] == (x + y)[k]);
        }
    }
    assert(b.subrange(i + x.len(), i + x.len() + y.len()) =~= y) by {
        assert forall|k: int|
            0 <= k < y.len() implies b.subrange(i + x.len(), i + x.len() + y.len())[k] == y[k] by {
            assert(whole[x.len() + k] == (x + y)[x.len() + k]);
        }
    }
}

/// A string: its UTF-8 byte length, then its UTF-8 bytes.
pub open spec fn enc_str(s: Seq<char>) -> Seq<u8> {
    enc_uint(encode_utf8(s).len(), 8) + encode_utf8(s)
}

/// A string whose UTF-8 byte length its 8-byte prefix can carry.
pub open spec fn wf_str(s: Seq<char>) -> bool {
    encode_utf8(s).len() < pow256(8)
}

/// The string read at `i`, with the position after it.
pub open spec fn dec_str_at(b: Seq<u8>, i: int) -> Option<(Seq<char>, int)> {
    if 0 <= i && i + 8 <= b.len() {
        let l = dec_uint(b, i, 8) as int;
        if i + 8 + l <= b.len() {
            let bytes = b.subrange(i + 8, i + 8 + l);
            if valid_utf8(bytes) {
                Some((decode_utf8(bytes), i + 8 + l))
            } else {
                None
            }
        } else {
            None
        }
    } else {
        None
    }
}

pub proof fn lemma_dec_enc_str(b: Seq<u8>, i: int, s: Seq<char>)
    requires
        wf_str(s),
        0 <= i,
        i + enc_str(s).len() <= b.len(),
        b.subrange(i, i + enc_str(s).len()) == enc_str(s),
    ensures
        dec_str_at(b, i) == Some((s, i + enc_str(s).len())),
{
    let u = encode_utf8(s);
    lemma_enc_uint_len(u.len(), 8);
    lemma_subrange_split(b, i, enc_uint(u.len(), 8), u);
    lemma_dec_enc_uint(b, i, u.len(), 8);
    vstd::utf8::encode_utf8_valid_utf8(s);
    vstd::utf8::encode_utf8_decode_utf8(s);
    assert(b.subrange(i + 8, i + 8 + u.len() as int) == u);
}

/// Relies on `core::str::from_utf8`: it returns `Ok` exactly on well-formed
/// UTF-8 input, and the returned slice views the given bytes unchanged.
#[verifier::external_body]
fn bytes_to_str(v: &[u8]) -> (r: Option<&str>)
    ensures
        r is Some <==> valid_utf8(v@),
        r matches Some(s) ==> s.spec_bytes() == v@,
{
    core::str::from_utf8(v).ok()
}

/// Appends the encoding of a string.
fn write_str(out: &mut Vec<u8>, s: &str)
    ensures
        final(out)@ == old(out)@ + enc_str(s@),
        wf_str(s@),
{
    let bytes = s.as_bytes();
    proof {
        lemma_pow256_values();
    }
    write_uint(out, bytes.len() as u64, 8);
    out.extend_from_slice(bytes);
    proof {
        assert(out@ =~= old(out)@ + enc_str(s@));
    }
}

/// Reads the string at `pos`.
fn read_str(b: &[u8], pos: usize) -> (r: Option<(String, usize)>)
    requires
        pos <= b@.len(),
    ensures
        match r {
            Some((s, p)) => {
                &&& dec_str_at(b@, pos as int) == Some((s@, p as int))
                &&& p <= b@.len()
            },
            None => dec_str_at(b@, pos as int) is None,
        },
{
    match read_uint(b, pos, 8) {
        None => None,
        Some((l, p1)) => {
            let remaining = b.len() - p1;
            if l > remaining as u64 {
                return None;
            }
            let lu = l as usize;
            let sub = slice_subrange(b, p1, p1 + lu);
            match bytes_to_str(sub) {
                Some(s) => {
                    proof {
                        vstd::utf8::encode_utf8_decode_utf8(s@);
                        assert(decode_utf8(sub@) == s@);
                    }
                    Some((s.to_owned(), p1 + lu))
                },
                None => None,
            }
        },
    }
}

/// An optional content: a one-byte tag, then the string when present.
pub open spec fn enc_opt_str(c: Option<Seq<char>>) -> Seq<u8> {
    match c {
        None => seq![0u8],
        Some(s) => seq![1u8] + enc_str(s),
    }
}

pub open spec fn wf_opt_str(c: Option<Seq<char>>) -> bool {
    match c {
        None => true,
        Some(s) => wf_str(s),
    }
}

/// The optional content read at `i`, with the position after it.
pub open spec fn dec_opt_str_at(b: Seq<u8>, i: int) -> Option<(Option<Seq<char>>, int)> {
    if 0 <= i && i + 1 <= b.len() {
        if b[i] == 0u8 {
            Some((None, i + 1))
        } else if b[i] == 1u8 {
            match dec_str_at(b, i + 1) {
                Some((s, j)) => Some((Some(s), j)),
                None => None,
            }
        } else {
            None
        }
    } else {
        None
    }
}

pub proof fn lemma_dec_enc_opt_str(b: Seq<u8>, i: int, c: Option<Seq<char>>)
    requires
        wf_opt_str(c),
        0 <= i,
        i + enc_opt_str(c).len() <= b.len(),
        b.subrange(i, i + enc_opt_str(c).len()) == enc_opt_str(c),
    ensures
        dec_opt_str_at(b, i) == Some((c, i + enc_opt_str(c).len())),
{
    match c {
        None => {
            assert(b.subrange(i, i + 1)[0] == b[i]);
        },
        Some(s) => {
            lemma_subrange_split(b, i, seq![1u8], enc_str(s));
            assert(b.subrange(i, i + 1)[0] == b[i]);
            assert(b[i] == 1u8);
            lemma_dec_enc_str(b, i + 1, s);
        },
    }
}

/// Appends the encoding of an optional content.
fn write_opt_str(out: &mut Vec<u8>, c: &Option<String>)
    ensures
        final(out)@ == old(out)@ + enc_opt_str(c.deep_view()),
        wf_opt_str(c.deep_view()),
{
    match c {
        None => {
            out.push(0u8);
            proof {
                assert(out@ =~= old(out)@ + enc_opt_str(None));
            }
        },
        Some(s) => {
            out.push(1u8);
            write_str(out, s.as_str());
            proof {
                assert(out@ =~= old(out)@ + enc_opt_str(Some(s@)));
            }
        },
    }
}

/// Reads the optional content at `pos`.
fn read_opt_str(b: &[u8], pos: usize) -> (r: Option<(Option<String>, usize)>)
    requires
        pos <= b@.len(),
    ensures
        match r {
            Some((c, p)) => {
                &&& dec_opt_str_at(b@, pos as int) == Some((c.deep_view(), p as int))
                &&& p <= b@.len()
            },
            None => dec_opt_str_at(b@, pos as int) is None,
        },
{
    if pos >= b.len() {
        return None;
    }
    let tag = *vstd::slice::slice_index_get(b, pos);
    if tag == 0 {
        Some((None, pos + 1))
    } else if tag == 1 {
        match read_str(b, pos + 1) {
            Some((s, p)) => Some((Some(s), p)),
            None => None,
        }
    } else {
        None
    }
}

/// The elements of a string list, one after another.
pub open spec fn enc_strs_body(l: Seq<Seq<char>>) -> Seq<u8>
    decreases l.len(),
{
    if l.len() == 0 {
        Seq::empty()
    } else {
        enc_str(l[0]) + enc_strs_body(l.drop_first())
    }
}

/// A string list: its element count, then its elements.
pub open spec fn enc_strs(l: Seq<Seq<char>>) -> Seq<u8> {
    enc_uint(l.len(), 8) + enc_strs_body(l)
}

pub open spec fn wf_strs(l: Seq<Seq<char>>) -> bool {
    l.len() < pow256(8) && forall|k: int| 0 <= k < l.len() ==> wf_str(#[trigger] l[k])
}

/// Reads `n` more strings at `i` onto the strings read so far.
pub open spec fn dec_strs_n(b: Seq<u8>, i: int, n: nat, acc: Seq<Seq<char>>) -> Option<
    (Seq<Seq<char>>, int),
>
    decreases n,
{
    if n == 0 {
        Some((acc, i))
    } else {
        match dec_str_at(b, i) {
            Some((s, j)) => dec_strs_n(b, j, (n - 1) as nat, acc.push(s)),
            None => None,
        }
    }
}

/// The string list read at `i`, with the position after it.
pub open spec fn dec_strs_at(b: Seq<u8>, i: int) -> Option<(Seq<Seq<char>>, int)> {
    if 0 <= i && i + 8 <= b.len() {
        dec_strs_n(b, i + 8, dec_uint(b, i, 8), Seq::empty())
    } else {
        None
    }
}

proof fn lemma_enc_strs_body_snoc(l: Seq<Seq<char>>, x: Seq<char>)
    ensures
        enc_strs_body(l.push(x)) == enc_strs_body(l) + enc_str(x),
    decreases l.len(),
{
    if l.len() == 0 {
        assert(l.push(x)[0] == x);
        assert(l.push(x).drop_first() =~= Seq::<Seq<char>>::empty());
        assert(enc_strs_body(l.push(x)) == enc_str(x) + enc_strs_body(
            Seq::<Seq<char>>::empty(),
        ));
        assert(enc_strs_body(Seq::<Seq<char>>::empty()) == Seq::<u8>::empty());
        assert(enc_str(x) + Seq::<u8>::empty() =~= Seq::<u8>::empty() + enc_str(x));
        assert(enc_strs_body(l) == Seq::<u8>::empty());
    } else {
        assert(l.push(x)[0] == l[0]);
        assert(l.push(x).drop_first() =~= l.drop_first().push(x));
        assert(enc_strs_body(l.push(x)) == enc_str(l[0]) + enc_strs_body(l.drop_first().push(x)));
        lemma_enc_strs_body_snoc(l.drop_first(), x);
        assert(enc_str(l[0]) + (enc_strs_body(l.drop_first()) + enc_str(x)) =~= (enc_str(l[0])
            + enc_strs_body(l.drop_first())) + enc_str(x));
        assert(enc_strs_body(l) == enc_str(l[0]) + enc_strs_body(l.drop_first()));
    }
}

proof fn lemma_dec_enc_strs_n(b: Seq<u8>, i: int, l: Seq<Seq<char>>, acc: Seq<Seq<char>>)
    requires
        forall|k: int| 0 <= k < l.len() ==> wf_str(#[trigger] l[k]),
        0 <= i,
        i + enc_strs_body(l).len() <= b.len(),
        b.subrange(i, i + enc_strs_body(l).len()) == enc_strs_body(l),
    ensures
        dec_strs_n(b, i, l.len(), acc) == Some((acc + l, i + enc_strs_body(l).len())),
    decreases l.len(),
{
    if l.len() == 0 {
        assert(acc + l =~= acc);
    } else {
        let e0 = enc_str(l[0]);
        let rest = enc_strs_body(l.drop_first());
        lemma_subrange_split(b, i, e0, rest);
        lemma_dec_enc_str(b, i, l[0]);
        assert(forall|k: int|
            0 <= k < l.drop_first().len() ==> wf_str(#[trigger] l.drop_first()[k]));
        lemma_dec_enc_strs_n(b, i + e0.len(), l.drop_first(), acc.push(l[0]));
        assert(acc.push(l[0]) + l.drop_first() =~= acc + l);
    }
}

pub proof fn lemma_dec_enc_strs(b: Seq<u8>, i: int, l: Seq<Seq<char>>)
    requires
        wf_strs(l),
        0 <= i,
        i + enc_strs(l).len() <= b.len(),
        b.subrange(i, i + enc_strs(l).len()) == enc_strs(l),
    ensures
        dec_strs_at(b, i) == Some((l, i + enc_strs(l).len())),
{
    lemma_enc_uint_len(l.len(), 8);
    lemma_subrange_split(b, i, enc_uint(l.len(), 8), enc_strs_body(l));
    lemma_dec_enc_uint(b, i, l.len(), 8);
    lemma_dec_enc_strs_n(b, i + 8, l, Seq::empty());
    assert(Seq::empty() + l =~= l);
}

/// Appends the encoding of a command list.
fn write_strs(out: &mut Vec<u8>, v: &Vec<String>)
    ensures
        final(out)@ == old(out)@ + enc_strs(v.deep_view()),
        wf_strs(v.deep_view()),
{
    proof {
        lemma_pow256_values();
        assert(v.deep_view().len() == v@.len());
    }
    write_uint(out, v.len() as u64, 8);
    let ghost l = v.deep_view();
    let mut i: usize = 0;
    proof {
        assert(l.take(0) =~= Seq::<Seq<char>>::empty());
        assert(out@ =~= old(out)@ + enc_uint(l.len(), 8) + enc_strs_body(l.take(0)));
    }
    while i < v.len()
        invariant
            i <= v@.len(),
            l == v.deep_view(),
            l.len() == v@.len(),
            out@ == old(out)@ + enc_uint(l.len(), 8) + enc_strs_body(l.take(i as int)),
            forall|k: int| 0 <= k < i ==> wf_str(#[trigger] l[k]),
        decreases v@.len() - i,
    {
        proof {
            assert(l[i as int] == v@[i as int]@);
        }
        write_str(out, v[i].as_str());
        proof {
            lemma_enc_strs_body_snoc(l.take(i as int), l[i as int]);
            assert(l.take(i as int).push(l[i as int]) =~= l.take(i as int + 1));
            assert(out@ =~= old(out)@ + enc_uint(l.len(), 8) + enc_strs_body(
                l.take(i as int + 1),
            ));
        }
        i += 1;
    }
    proof {
        assert(l.take(l.len() as int) =~= l);
        assert(out@ =~= old(out)@ + enc_strs(l));
    }
}

/// Reads the command list at `pos`.
fn read_strs(b: &[u8], pos: usize) -> (r: Option<(Vec<String>, usize)>)
    requires
        pos <= b@.len(),
    ensures
        match r {
            Some((v, p)) => {
                &&& dec_strs_at(b@, pos as int) == Some((v.deep_view(), p as int))
                &&& p <= b@.len()
            },
            None => dec_strs_at(b@, pos as int) is None,
        },
{
    match read_uint(b, pos, 8) {
        None => None,
        Some((count, p0)) => {
            let mut acc: Vec<String> = Vec::new();
            let mut p = p0;
            let mut k: u64 = 0;
            proof {
                assert(acc.deep_view() =~= Seq::<Seq<char>>::empty());
            }
            while k < count
                invariant
                    k <= count,
                    p <= b@.len(),
                    pos + 8 <= b@.len(),
                    p0 == pos + 8,
                    count as nat == dec_uint(b@, pos as int, 8),
                    dec_strs_n(b@, p0 as int, count as nat, Seq::empty()) == dec_strs_n(
                        b@,
                        p as int,
                        (count - k) as nat,
                        acc.deep_view(),
                    ),
                decreases count - k,
            {
                let ghost pre_acc = acc.deep_view();
                match read_str(b, p) {
                    Some((s, p2)) => {
                        let ghost sv = s@;
                        acc.push(s);
                        proof {
                            assert(acc.deep_view() =~= pre_acc.push(sv));
                        }
                        p = p2;
                    },
                    None => {
                        proof {
                            assert(dec_strs_n(b@, p as int, (count - k) as nat, pre_acc)
                                is None);
                            assert(dec_strs_n(b@, p0 as int, count as nat, Seq::empty())
                                is None);
                            assert(dec_strs_at(b@, pos as int) == dec_strs_n(
                                b@,
                                p0 as int,
                                count as nat,
                                Seq::empty(),
                            ));
                        }
                        return None;
                    },
                }
                k += 1;
            }
            Some((acc, p))
        },
    }
}

/// A file entry: its path, then its optional content.
pub open spec fn enc_file(f: FileView) -> Seq<u8> {
    enc_str(f.path) + enc_opt_str(f.content)
}

pub open spec fn wf_file(f: FileView) -> bool {
    wf_str(f.path) && wf_opt_str(f.content)
}

/// The file entry read at `i`, with the position after it.
pub open spec fn dec_file_at(b: Seq<u8>, i: int) -> Option<(FileView, int)> {
    match dec_str_at(b, i) {
        Some((path, j)) => match dec_opt_str_at(b, j) {
            Some((content, k)) => Some((FileView { path, content }, k)),
            None => None,
        },
        None => None,
    }
}

pub proof fn lemma_dec_enc_file(b: Seq<u8>, i: int, f: FileView)
    requires
        wf_file(f),
        0 <= i,
        i + enc_file(f).len() <= b.len(),
        b.subrange(i, i + enc_file(f).len()) == enc_file(f),
    ensures
        dec_file_at(b, i) == Some((f, i + enc_file(f).len())),
{
    lemma_subrange_split(b, i, enc_str(f.path), enc_opt_str(f.content));
    lemma_dec_enc_str(b, i, f.path);
    lemma_dec_enc_opt_str(b, i + enc_str(f.path).len(), f.content);
}

/// Appends the encoding of a file entry.
fn write_file(out: &mut Vec<u8>, f: &crate::generations::File)
    ensures
        final(out)@ == old(out)@ + enc_file(f@),
        wf_file(f@),
{
    write_str(out, f.path.as_str());
    write_opt_str(out, &f.content);
    proof {
        assert(out@ =~= old(out)@ + enc_file(f@));
    }
}

/// Reads the file entry at `pos`.
fn read_file(b: &[u8], pos: usize) -> (r: Option<(crate::generations::File, usize)>)
    requires
        pos <= b@.len(),
    ensures
        match r {
            Some((f, p)) => {
                &&& dec_file_at(b@, pos as int) == Some((f@, p as int))
                &&& p <= b@.len()
            },
            None => dec_file_at(b@, pos as int) is None,
        },
{
    match read_str(b, pos) {
        None => None,
        Some((path, p1)) => match read_opt_str(b, p1) {
            None => None,
            Some((content, p2)) => Some((crate::generations::File { path, content }, p2)),
        },
    }
}

/// The entries of a file list, one after another.
pub open spec fn enc_files_body(l: Seq<FileView>) -> Seq<u8>
    decreases l.len(),
{
    if l.len() == 0 {
        Seq::empty()
    } else {
        enc_file(l[0]) + enc_files_body(l.drop_first())
    }
}

/// A file list: its entry count, then its entries.
pub open spec fn enc_files(l: Seq<FileView>) -> Seq<u8> {
    enc_uint(l.len(), 8) + enc_files_body(l)
}

pub open spec fn wf_files(l: Seq<FileView>) -> bool {
    l.len() < pow256(8) && forall|k: int| 0 <= k < l.len() ==> wf_file(#[trigger] l[k])
}

/// Reads `n` more file entries at `i` onto the entries read so far.
pub open spec fn dec_files_n(b: Seq<u8>, i: int, n: nat, acc: Seq<FileView>) -> Option<
    (Seq<FileView>, int),
>
    decreases n,
{
    if n == 0 {
        Some((acc, i))
    } else {
        match dec_file_at(b, i) {
            Some((f, j)) => dec_files_n(b, j, (n - 1) as nat, acc.push(f)),
            None => None,
        }
    }
}

/// The file list read at `i`, with the position after it.
pub open spec fn dec_files_at(b: Seq<u8>, i: int) -> Option<(Seq<FileView>, int)> {
    if 0 <= i && i + 8 <= b.len() {
        dec_files_n(b, i + 8, dec_uint(b, i, 8), Seq::empty())
    } else {
        None
    }
}

proof fn lemma_enc_files_body_snoc(l: Seq<FileView>, x: FileView)
    ensures
        enc_files_body(l.push(x)) == enc_files_body(l) + enc_file(x),
    decreases l.len(),
{
    if l.len() == 0 {
        assert(l.push(x)[0] == x);
        assert(l.push(x).drop_first() =~= Seq::<FileView>::empty());
        assert(enc_files_body(l.push(x)) == enc_file(x) + enc_files_body(
            Seq::<FileView>::empty(),
        ));
        assert(enc_file(x) + Seq::<u8>::empty() =~= Seq::<u8>::empty() + enc_file(x));
    } else {
        assert(l.push(x)[0] == l[0]);
        assert(l.push(x).drop_first() =~= l.drop_first().push(x));
        assert(enc_files_body(l.push(x)) == enc_file(l[0]) + enc_files_body(
            l.drop_first().push(x),
        ));
        lemma_enc_files_body_snoc(l.drop_first(), x);
        assert(enc_file(l[0]) + (enc_files_body(l.drop_first()) + enc_file(x)) =~= (enc_file(l[0])
            + enc_files_body(l.drop_first())) + enc_file(x));
    }
}

proof fn lemma_dec_enc_files_n(b: Seq<u8>, i: int, l: Seq<FileView>, acc: Seq<FileView>)
    requires
        forall|k: int| 0 <= k < l.len() ==> wf_file(#[trigger] l[k]),
        0 <= i,
        i + enc_files_body(l).len() <= b.len(),
        b.subrange(i, i + enc_files_body(l).len()) == enc_files_body(l),
    ensures
        dec_files_n(b, i, l.len(), acc) == Some((acc + l, i + enc_files_body(l).len())),
    decreases l.len(),
{
    if l.len() == 0 {
        assert(acc + l =~= acc);
    } else {
        let e0 = enc_file(l[0]);
        lemma_subrange_split(b, i, e0, enc_files_body(l.drop_first()));
        lemma_dec_enc_file(b, i, l[0]);
        assert(forall|k: int|
            0 <= k < l.drop_first().len() ==> wf_file(#[trigger] l.drop_first()[k]));
        lemma_dec_enc_files_n(b, i + e0.len(), l.drop_first(), acc.push(l[0]));
        assert(acc.push(l[0]) + l.drop_first() =~= acc + l);
    }
}

pub proof fn lemma_dec_enc_files(b: Seq<u8>, i: int, l: Seq<FileView>)
    requires
        wf_files(l),
        0 <= i,
        i + enc_files(l).len() <= b.len(),
        b.subrange(i, i + enc_files(l).len()) == enc_files(l),
    ensures
        dec_files_at(b, i) == Some((l, i + enc_files(l).len())),
{
    lemma_enc_uint_len(l.len(), 8);
    lemma_subrange_split(b, i, enc_uint(l.len(), 8), enc_files_body(l));
    lemma_dec_enc_uint(b, i, l.len(), 8);
    lemma_dec_enc_files_n(b, i + 8, l, Seq::empty());
    assert(Seq::empty() + l =~= l);
}

/// Appends the encoding of a file list.
fn write_files(out: &mut Vec<u8>, v: &Vec<crate::generations::File>)
    ensures
        final(out)@ == old(out)@ + enc_files(
            v@.map_values(|f: crate::generations::File| f@),
        ),
        wf_files(v@.map_values(|f: crate::generations::File| f@)),
{
    let ghost l = v@.map_values(|f: crate::generations::File| f@);
    proof {
        lemma_pow256_values();
    }
    write_uint(out, v.len() as u64, 8);
    let mut i: usize = 0;
    proof {
        assert(l.take(0) =~= Seq::<FileView>::empty());
        assert(out@ =~= old(out)@ + enc_uint(l.len(), 8) + enc_files_body(l.take(0)));
    }
    while i < v.len()
        invariant
            i <= v@.len(),
            l == v@.map_values(|f: crate::generations::File| f@),
            l.len() == v@.len(),
            out@ == old(out)@ + enc_uint(l.len(), 8) + enc_files_body(l.take(i as int)),
            forall|k: int| 0 <= k < i ==> wf_file(#[trigger] l[k]),
        decreases v@.len() - i,
    {
        proof {
            assert(l[i as int] == v@[i as int]@);
        }
        write_file(out, &v[i]);
        proof {
            lemma_enc_files_body_snoc(l.take(i as int), l[i as int]);
            assert(l.take(i as int).push(l[i as int]) =~= l.take(i as int + 1));
            assert(out@ =~= old(out)@ + enc_uint(l.len(), 8) + enc_files_body(
                l.take(i as int + 1),
            ));
        }
        i += 1;
    }
    proof {
        assert(l.take(l.len() as int) =~= l);
        assert(out@ =~= old(out)@ + enc_files(l));
    }
}

/// Reads the file list at `pos`.
fn read_files(b: &[u8], pos: usize) -> (r: Option<(Vec<crate::generations::File>, usize)>)
    requires
        pos <= b@.len(),
    ensures
        match r {
            Some((v, p)) => {
                &&& dec_files_at(b@, pos as int) == Some(
                    (v@.map_values(|f: crate::generations::File| f@), p as int),
                )
                &&& p <= b@.len()
            },
            None => dec_files_at(b@, pos as int) is None,
        },
{
    match read_uint(b, pos, 8) {
        None => None,
        Some((count, p0)) => {
            let mut acc: Vec<crate::generations::File> = Vec::new();
            let mut p = p0;
            let mut k: u64 = 0;
            proof {
                assert(acc@.map_values(|f: crate::generations::File| f@) =~= Seq::<
                    FileView,
                >::empty());
            }
            while k < count
                invariant
                    k <= count,
                    p <= b@.len(),
                    pos + 8 <= b@.len(),
                    p0 == pos + 8,
                    count as nat == dec_uint(b@, pos as int, 8),
                    dec_files_n(b@, p0 as int, count as nat, Seq::empty()) == dec_files_n(
                        b@,
                        p as int,
                        (count - k) as nat,
                        acc@.map_values(|f: crate::generations::File| f@),
                    ),
                decreases count - k,
            {
                let ghost pre_acc = acc@.map_values(|f: crate::generations::File| f@);
                match read_file(b, p) {
                    Some((f, p2)) => {
                        let ghost fv = f@;
                        acc.push(f);
                        proof {
                            assert(acc@.map_values(|f: crate::generations::File| f@)
                                =~= pre_acc.push(fv));
                        }
                        p = p2;
                    },
                    None => {
                        proof {
                            assert(dec_files_n(b@, p as int, (count - k) as nat, pre_acc)
                                is None);
                            assert(dec_files_n(b@, p0 as int, count as nat, Seq::empty())
                                is None);
                            assert(dec_files_at(b@, pos as int) == dec_files_n(
                                b@,
                                p0 as int,
                                count as nat,
                                Seq::empty(),
                            ));
                        }
                        return None;
                    },
                }
                k += 1;
            }
            Some((acc, p))
        },
    }
}

/// A script unit: its three command lists, install, update, uninstall.
pub open spec fn enc_script(s: ScriptView) -> Seq<u8> {
    enc_strs(s.install) + enc_strs(s.update) + enc_strs(s.uninstall)
}

pub open spec fn wf_script(s: ScriptView) -> bool {
    wf_strs(s.install) && wf_strs(s.update) && wf_strs(s.uninstall)
}

/// The script unit read at `i`, with the position after it.
pub open spec fn dec_script_at(b: Seq<u8>, i: int) -> Option<(ScriptView, int)> {
    match dec_strs_at(b, i) {
        Some((install, j)) => match dec_strs_at(b, j) {
            Some((update, k)) => match dec_strs_at(b, k) {
                Some((uninstall, m)) => Some((ScriptView { install, update, uninstall }, m)),
                None => None,
            },
            None => None,
        },
        None => None,
    }
}

pub proof fn lemma_dec_enc_script(b: Seq<u8>, i: int, s: ScriptView)
    requires
        wf_script(s),
        0 <= i,
        i + enc_script(s).len() <= b.len(),
        b.subrange(i, i + enc_script(s).len()) == enc_script(s),
    ensures
        dec_script_at(b, i) == Some((s, i + enc_script(s).len())),
{
    let a = enc_strs(s.install);
    let u = enc_strs(s.update);
    let w = enc_strs(s.uninstall);
    assert(enc_script(s) =~= (a + u) + w);
    lemma_subrange_split(b, i, a + u, w);
    lemma_subrange_split(b, i, a, u);
    lemma_dec_enc_strs(b, i, s.install);
    lemma_dec_enc_strs(b, i + a.len(), s.update);
    lemma_dec_enc_strs(b, i + a.len() + u.len(), s.uninstall);
}

/// Appends the encoding of a script unit.
fn write_script(out: &mut Vec<u8>, s: &crate::generations::Script)
    ensures
        final(out)@ == old(out)@ + enc_script(s@),
        wf_script(s@),
{
    write_strs(out, &s.install);
    write_strs(out, &s.update);
    write_strs(out, &s.uninstall);
    proof {
        assert(out@ =~= old(out)@ + enc_script(s@));
    }
}

/// Reads the script unit at `pos`.
fn read_script(b: &[u8], pos: usize) -> (r: Option<(crate::generations::Script, usize)>)
    requires
        pos <= b@.len(),
    ensures
        match r {
            Some((s, p)) => {
                &&& dec_script_at(b@, pos as int) == Some((s@, p as int))
                &&& p <= b@.len()
            },
            None => dec_script_at(b@, pos as int) is None,
        },
{
    match read_strs(b, pos) {
        None => None,
        Some((install, p1)) => match read_strs(b, p1) {
            None => None,
            Some((update, p2)) => match read_strs(b, p2) {
                None => None,
                Some((uninstall, p3)) => Some(
                    (crate::generations::Script { install, update, uninstall }, p3),
                ),
            },
        },
    }
}

/// The units of a script list, one after another.
pub open spec fn enc_scripts_body(l: Seq<ScriptView>) -> Seq<u8>
    decreases l.len(),
{
    if l.len() == 0 {
        Seq::empty()
    } else {
        enc_script(l[0]) + enc_scripts_body(l.drop_first())
    }
}

/// A script list: its unit count, then its units.
pub open spec fn enc_scripts(l: Seq<ScriptView>) -> Seq<u8> {
    enc_uint(l.len(), 8) + enc_scripts_body(l)
}

pub open spec fn wf_scripts(l: Seq<ScriptView>) -> bool {
    l.len() < pow256(8) && forall|k: int| 0 <= k < l.len() ==> wf_script(#[trigger] l[k])
}

/// Reads `n` more script units at `i` onto the units read so far.
pub open spec fn dec_scripts_n(b: Seq<u8>, i: int, n: nat, acc: Seq<ScriptView>) -> Option<
    (Seq<ScriptView>, int),
>
    decreases n,
{
    if n == 0 {
        Some((acc, i))
    } else {
        match dec_script_at(b, i) {
            Some((s, j)) => dec_scripts_n(b, j, (n - 1) as nat, acc.push(s)),
            None => None,
        }
    }
}

/// The script list read at `i`, with the position after it.
pub open spec fn dec_scripts_at(b: Seq<u8>, i: int) -> Option<(Seq<ScriptView>, int)> {
    if 0 <= i && i + 8 <= b.len() {
        dec_scripts_n(b, i + 8, dec_uint(b, i, 8), Seq::empty())
    } else {
        None
    }
}

proof fn lemma_enc_scripts_body_snoc(l: Seq<ScriptView>, x: ScriptView)
    ensures
        enc_scripts_body(l.push(x)) == enc_scripts_body(l) + enc_script(x),
    decreases l.len(),
{
    if l.len() == 0 {
        assert(l.push(x)[0] == x);
        assert(l.push(x).drop_first() =~= Seq::<ScriptView>::empty());
        assert(enc_scripts_body(l.push(x)) == enc_script(x) + enc_scripts_body(
            Seq::<ScriptView>::empty(),
        ));
        assert(enc_script(x) + Seq::<u8>::empty() =~= Seq::<u8>::empty() + enc_script(x));
    } else {
        assert(l.push(x)[0] == l[0]);
        assert(l.push(x).drop_first() =~= l.drop_first().push(x));
        assert(enc_scripts_body(l.push(x)) == enc_script(l[0]) + enc_scripts_body(
            l.drop_first().push(x),
        ));
        lemma_enc_scripts_body_snoc(l.drop_first(), x);
        assert(enc_script(l[0]) + (enc_scripts_body(l.drop_first()) + enc_script(x)) =~= (
        enc_script(l[0]) + enc_scripts_body(l.drop_first())) + enc_script(x));
    }
}

proof fn lemma_dec_enc_scripts_n(b: Seq<u8>, i: int, l: Seq<ScriptView>, acc: Seq<ScriptView>)
    requires
        forall|k: int| 0 <= k < l.len() ==> wf_script(#[trigger] l[k]),
        0 <= i,
        i + enc_scripts_body(l).len() <= b.len(),
        b.subrange(i, i + enc_scripts_body(l).len()) == enc_scripts_body(l),
    ensures
        dec_scripts_n(b, i, l.len(), acc) == Some((acc + l, i + enc_scripts_body(l).len())),
    decreases l.len(),
{
    if l.len() == 0 {
        assert(acc + l =~= acc);
    } else {
        let e0 = enc_script(l[0]);
        lemma_subrange_split(b, i, e0, enc_scripts_body(l.drop_first()));
        lemma_dec_enc_script(b, i, l[0]);
        assert(forall|k: int|
            0 <= k < l.drop_first().len() ==> wf_script(#[trigger] l.drop_first()[k]));
        lemma_dec_enc_scripts_n(b, i + e0.len(), l.drop_first(), acc.push(l[0]));
        assert(acc.push(l[0]) + l.drop_first() =~= acc + l);
    }
}

pub proof fn lemma_dec_enc_scripts(b: Seq<u8>, i: int, l: Seq<ScriptView>)
    requires
        wf_scripts(l),
        0 <= i,
        i + enc_scripts(l).len() <= b.len(),
        b.subrange(i, i + enc_scripts(l).len()) == enc_scripts(l),
    ensures
        dec_scripts_at(b, i) == Some((l, i + enc_scripts(l).len())),
{
    lemma_enc_uint_len(l.len(), 8);
    lemma_subrange_split(b, i, enc_uint(l.len(), 8), enc_scripts_body(l));
    lemma_dec_enc_uint(b, i, l.len(), 8);
    lemma_dec_enc_scripts_n(b, i + 8, l, Seq::empty());
    assert(Seq::empty() + l =~= l);
}

/// Appends the encoding of a script list.
fn write_scripts(out: &mut Vec<u8>, v: &Vec<crate::generations::Script>)
    ensures
        final(out)@ == old(out)@ + enc_scripts(
            v@.map_values(|s: crate::generations::Script| s@),
        ),
        wf_scripts(v@.map_values(|s: crate::generations::Script| s@)),
{
    let ghost l = v@.map_values(|s: crate::generations::Script| s@);
    proof {
        lemma_pow256_values();
    }
    write_uint(out, v.len() as u64, 8);
    let mut i: usize = 0;
    proof {
        assert(l.take(0) =~= Seq::<ScriptView>::empty());
        assert(out@ =~= old(out)@ + enc_uint(l.len(), 8) + enc_scripts_body(l.take(0)));
    }
    while i < v.len()
        invariant
            i <= v@.len(),
            l == v@.map_values(|s: crate::generations::Script| s@),
            l.len() == v@.len(),
            out@ == old(out)@ + enc_uint(l.len(), 8) + enc_scripts_body(l.take(i as int)),
            forall|k: int| 0 <= k < i ==> wf_script(#[trigger] l[k]),
        decreases v@.len() - i,
    {
        proof {
            assert(l[i as int] == v@[i as int]@);
        }
        write_script(out, &v[i]);
        proof {
            lemma_enc_scripts_body_snoc(l.take(i as int), l[i as int]);
            assert(l.take(i as int).push(l[i as int]) =~= l.take(i as int + 1));
            assert(out@ =~= old(out)@ + enc_uint(l.len(), 8) + enc_scripts_body(
                l.take(i as int + 1),
            ));
        }
        i += 1;
    }
    proof {
        assert(l.take(l.len() as int) =~= l);
        assert(out@ =~= old(out)@ + enc_scripts(l));
    }
}

/// Reads the script list at `pos`.
fn read_scripts(b: &[u8], pos: usize) -> (r: Option<(Vec<crate::generations::Script>, usize)>)
    requires
        pos <= b@.len(),
    ensures
        match r {
            Some((v, p)) => {
                &&& dec_scripts_at(b@, pos as int) == Some(
                    (v@.map_values(|s: crate::generations::Script| s@), p as int),
                )
                &&& p <= b@.len()
            },
            None => dec_scripts_at(b@, pos as int) is None,
        },
{
    match read_uint(b, pos, 8) {
        None => None,
        Some((count, p0)) => {
            let mut acc: Vec<crate::generations::Script> = Vec::new();
            let mut p = p0;
            let mut k: u64 = 0;
            proof {
                assert(acc@.map_values(|s: crate::generations::Script| s@) =~= Seq::<
                    ScriptView,
                >::empty());
            }
            while k < count
                invariant
                    k <= count,
                    p <= b@.len(),
                    pos + 8 <= b@.len(),
                    p0 == pos + 8,
                    count as nat == dec_uint(b@, pos as int, 8),
                    dec_scripts_n(b@, p0 as int, count as nat, Seq::empty()) == dec_scripts_n(
                        b@,
                        p as int,
                        (count - k) as nat,
                        acc@.map_values(|s: crate::generations::Script| s@),
                    ),
                decreases count - k,
            {
                let ghost pre_acc = acc@.map_values(|s: crate::generations::Script| s@);
                match read_script(b, p) {
                    Some((s, p2)) => {
                        let ghost sv = s@;
                        acc.push(s);
                        proof {
                            assert(acc@.map_values(|s: crate::generations::Script| s@)
                                =~= pre_acc.push(sv));
                        }
                        p = p2;
                    },
                    None => {
                        proof {
                            assert(dec_scripts_n(b@, p as int, (count - k) as nat, pre_acc)
                                is None);
                            assert(dec_scripts_n(b@, p0 as int, count as nat, Seq::empty())
                                is None);
                            assert(dec_scripts_at(b@, pos as int) == dec_scripts_n(
                                b@,
                                p0 as int,
                                count as nat,
                                Seq::empty(),
                            ));
                        }
                        return None;
                    },
                }
                k += 1;
            }
            Some((acc, p))
        },
    }
}

/// The unsigned value whose 32-bit two's-complement pattern carries `v`.
pub open spec fn u32_of_i32(v: int) -> nat {
    if v >= 0 {
        v as nat
    } else {
        (v + 0x100000000) as nat
    }
}

/// The signed value carried by the 32-bit two's-complement pattern `u`.
pub open spec fn i32_of_u32(u: nat) -> int {
    if u < 0x80000000 {
        u as int
    } else {
        u - 0x100000000
    }
}

/// The unsigned value whose 64-bit two's-complement pattern carries `v`.
pub open spec fn u64_of_i64(v: int) -> nat {
    if v >= 0 {
        v as nat
    } else {
        (v + 0x10000000000000000) as nat
    }
}

/// The signed value carried by the 64-bit two's-complement pattern `u`.
pub open spec fn i64_of_u64(u: nat) -> int {
    if u < 0x8000000000000000 {
        u as int
    } else {
        u - 0x10000000000000000
    }
}

/// A generation: id, creation timestamp, file list, script list.
pub open spec fn enc_gen(g: GenerationView) -> Seq<u8> {
    enc_uint(u32_of_i32(g.id), 4) + enc_uint(u64_of_i64(g.creation_datetime), 8) + enc_files(
        g.files,
    ) + enc_scripts(g.scripts)
}

/// A generation the record format can carry: its id and timestamp fit their
/// fixed-width fields and its lists fit their count fields.  Every value of
/// [`Generation`] is well formed in this sense.
pub open spec fn wf_gen(g: GenerationView) -> bool {
    &&& -0x80000000 <= g.id < 0x80000000
    &&& -0x8000000000000000 <= g.creation_datetime < 0x8000000000000000
    &&& wf_files(g.files)
    &&& wf_scripts(g.scripts)
}

/// The generation read at `i`, with the position after it.
pub open spec fn dec_gen_at(b: Seq<u8>, i: int) -> Option<(GenerationView, int)> {
    if 0 <= i && i + 4 <= b.len() {
        let id = i32_of_u32(dec_uint(b, i, 4));
        if i + 12 <= b.len() {
            let cdt = i64_of_u64(dec_uint(b, i + 4, 8));
            match dec_files_at(b, i + 12) {
                Some((files, j)) => match dec_scripts_at(b, j) {
                    Some((scripts, k)) => Some(
                        (GenerationView { id, creation_datetime: cdt, files, scripts }, k),
                    ),
                    None => None,
                },
                None => None,
            }
        } else {
            None
        }
    } else {
        None
    }
}

/// The generation a whole record decodes to.  Bytes after the encoded
/// generation are ignored, as a record is read as a stream.
pub open spec fn dec_gen(b: Seq<u8>) -> Option<GenerationView> {
    match dec_gen_at(b, 0) {
        Some((g, _)) => Some(g),
        None => None,
    }
}

pub proof fn lemma_dec_enc_gen(b: Seq<u8>, i: int, g: GenerationView)
    requires
        wf_gen(g),
        0 <= i,
        i + enc_gen(g).len() <= b.len(),
        b.subrange(i, i + enc_gen(g).len()) == enc_gen(g),
    ensures
        dec_gen_at(b, i) == Some((g, i + enc_gen(g).len())),
{
    let eid = enc_uint(u32_of_i32(g.id), 4);
    let ecdt = enc_uint(u64_of_i64(g.creation_datetime), 8);
    let efiles = enc_files(g.files);
    let escripts = enc_scripts(g.scripts);
    lemma_enc_uint_len(u32_of_i32(g.id), 4);
    lemma_enc_uint_len(u64_of_i64(g.creation_datetime), 8);
    lemma_pow256_values();
    assert(enc_gen(g) =~= ((eid + ecdt) + efiles) + escripts);
    lemma_subrange_split(b, i, (eid + ecdt) + efiles, escripts);
    lemma_subrange_split(b, i, eid + ecdt, efiles);
    lemma_subrange_split(b, i, eid, ecdt);
    lemma_dec_enc_uint(b, i, u32_of_i32(g.id), 4);
    lemma_dec_enc_uint(b, i + 4, u64_of_i64(g.creation_datetime), 8);
    lemma_dec_enc_files(b, i + 12, g.files);
    lemma_dec_enc_scripts(b, i + 12 + efiles.len(), g.scripts);
}

/// The record format round-trips: decoding the encoding of any generation
/// the format can carry yields that generation back, unchanged in every
/// field, including the absent-content sentinel of deleted files.
pub proof fn lemma_decode_encode(g: GenerationView)
    requires
        wf_gen(g),
    ensures
        dec_gen(enc_gen(g)) == Some(g),
{
    let b = enc_gen(g);
    assert(b.subrange(0, b.len() as int) =~= b);
    lemma_dec_enc_gen(b, 0, g);
}

impl Generation {
    /// Serializes this generation into its binary record.
    pub fn encode(&self) -> (r: Vec<u8>)
        ensures
            r@ == enc_gen(self@),
            wf_gen(self@),
    {
        let mut out: Vec<u8> = Vec::new();
        let idu: u32 = if self.id >= 0 {
            self.id as u32
        } else {
            ((self.id as i64) + 0x100000000i64) as u32
        };
        let cdtu: u64 = if self.creation_datetime >= 0 {
            self.creation_datetime as u64
        } else {
            ((self.creation_datetime as i128) + 0x10000000000000000i128) as u64
        };
        proof {
            assert(idu as nat == u32_of_i32(self.id as int));
            assert(cdtu as nat == u64_of_i64(self.creation_datetime as int));
        }
        write_uint(&mut out, idu as u64, 4);
        write_uint(&mut out, cdtu, 8);
        write_files(&mut out, &self.files);
        write_scripts(&mut out, &self.scripts);
        proof {
            assert(enc_uint(idu as nat, 4) == enc_uint((idu as u64) as nat, 4));
            assert(out@ =~= enc_gen(self@));
        }
        out
    }

    /// Deserializes a binary record back into the generation it carries,
    /// or nothing where the bytes do not carry one.
    pub fn decode(b: &[u8]) -> (r: Option<Generation>)
        ensures
            match r {
                Some(g) => dec_gen(b@) == Some(g@),
                None => dec_gen(b@) is None,
            },
    {
        proof {
            lemma_pow256_values();
        }
        let (idu, p1) = match read_uint(b, 0, 4) {
            Some(v) => v,
            None => {
                return None;
            },
        };
        let (cdtu, p2) = match read_uint(b, p1, 8) {
            Some(v) => v,
            None => {
                return None;
            },
        };
        let (files, p3) = match read_files(b, p2) {
            Some(v) => v,
            None => {
                return None;
            },
        };
        let (scripts, _p4) = match read_scripts(b, p3) {
            Some(v) => v,
            None => {
                return None;
            },
        };
        proof {
            lemma_dec_uint_bound(b@, 0, 4);
            lemma_dec_uint_bound(b@, p1 as int, 8);
            lemma_pow256_increases(4, 8);
        }
        let id: i32 = if idu < 0x80000000u64 {
            idu as i32
        } else {
            ((idu as i64) - 0x100000000i64) as i32
        };
        let creation_datetime: i64 = if cdtu < 0x8000000000000000u64 {
            cdtu as i64
        } else {
            // The pattern's value exceeds the signed range by exactly one
            // sign-bit weight: subtracting it in the signed domain lands in
            // range.
            (((cdtu as i128) - 0x10000000000000000i128) as i64)
        };
        proof {
            assert(id as int == i32_of_u32(idu as nat));
            assert(creation_datetime as int == i64_of_u64(cdtu as nat));
        }
        let g = Generation { id, creation_datetime, files, scripts };
        proof {
            assert(g@.files == files@.map_values(|f: crate::generations::File| f@));
            assert(g@.scripts == scripts@.map_values(|s: crate::generations::Script| s@));
            assert(dec_gen(b@) == Some(g@));
        }
        Some(g)
    }
}

proof fn lemma_pow256_values()
    ensures
        pow256(4) == 0x100000000,
        pow256(7) == 0x100000000000000,
        pow256(8) == 0x10000000000000000,
{
    assert(pow256(0) == 1);
    assert(pow256(1) == 256);
    assert(pow256(2) == 0x10000);
    assert(pow256(3) == 0x1000000);
    assert(pow256(4) == 0x100000000);
    assert(pow256(5) == 0x10000000000);
    assert(pow256(6) == 0x1000000000000);
    assert(pow256(7) == 0x100000000000000);
    assert(pow256(8) == 0x10000000000000000);
}

proof fn lemma_pow256_increases(m: nat, n: nat)
    requires
        m <= n,
    ensures
        pow256(m) <= pow256(n),
    decreases n,
{
    if m < n && n > 0 {
        lemma_pow256_increases(m, (n - 1) as nat);
        assert(pow256(n) == 256 * pow256((n - 1) as nat));
    }
}

} // verus!
