//! The generation store: persisted records in a directory, one per
//! generation, named by a fixed prefix followed by the decimal id.
//!
//! The store's callers hand the directory's contents in as plain entries
//! (name and bytes); everything here — which names count as generation
//! records, which id a name encodes, which record is the latest, and the
//! order records come back in — is computed and verified in this module.

use vstd::prelude::*;
use vstd::string::{StrSliceExecFns, StringExecFns};

use crate::codec::dec_gen;
use crate::generations::{Generation, GenerationView};

verus! {

/// One directory entry handed in by the caller: a file's name and bytes.
pub struct StoreEntry {
    pub name: String,
    pub data: Vec<u8>,
}

/// Mathematical model of a directory entry.
pub ghost struct StoreEntryView {
    pub name: Seq<char>,
    pub data: Seq<u8>,
}

impl View for StoreEntry {
    type V = StoreEntryView;

    open spec fn view(&self) -> StoreEntryView {
        StoreEntryView { name: self.name@, data: self.data@ }
    }
}

/// How reading the store fails.  `NotFound` is the expected first-run
/// signal — no generation record exists yet — and callers must treat it as
/// "no previous generation", not as a hard error.
#[derive(Debug, PartialEq)]
pub enum StoreError {
    NotFound,
    Codec,
    InvalidId,
}

/// The fixed name prefix of a generation record.
pub open spec fn record_prefix() -> Seq<char> {
    seq!['c', 'a', 'r', 'b', 'i', 'd', 'e', '-']
}

/// A decimal digit.
pub open spec fn is_digit(c: char) -> bool {
    48 <= c as u32 <= 57
}

/// The value of a decimal digit.
pub open spec fn digit_val(c: char) -> nat
    recommends
        is_digit(c),
{
    (c as u32 - 48) as nat
}

pub open spec fn all_digits(s: Seq<char>) -> bool {
    forall|i: int| 0 <= i < s.len() ==> is_digit(#[trigger] s[i])
}

/// The value of a digit string, most significant digit first.
pub open spec fn digits_val(s: Seq<char>) -> nat
    recommends
        all_digits(s),
    decreases s.len(),
{
    if s.len() == 0 {
        0
    } else {
        digits_val(s.drop_last()) * 10 + digit_val(s.last())
    }
}

/// True when `s` names a generation record: the prefix followed by one or
/// more decimal digits, nothing else.
pub open spec fn is_gen_name(s: Seq<char>) -> bool {
    s.len() > 8 && s.subrange(0, 8) == record_prefix() && all_digits(s.skip(8))
}

/// The id a generation record's name encodes.
pub open spec fn name_id(s: Seq<char>) -> nat
    recommends
        is_gen_name(s),
{
    digits_val(s.skip(8))
}

/// The digit of a value below ten.
pub open spec fn digit_char(d: nat) -> char
    recommends
        d < 10,
{
    ((48 + d) as u32) as char
}

/// The canonical decimal digits of `n`: no leading zeros.
pub open spec fn dec_digits(n: nat) -> Seq<char>
    decreases n,
{
    if n < 10 {
        seq![digit_char(n)]
    } else {
        dec_digits(n / 10).push(digit_char(n % 10))
    }
}

/// The canonical record name of generation `n`.
pub open spec fn gen_name(n: nat) -> Seq<char> {
    record_prefix() + dec_digits(n)
}

proof fn lemma_dec_digits(n: nat)
    ensures
        dec_digits(n).len() >= 1,
        all_digits(dec_digits(n)),
        digits_val(dec_digits(n)) == n,
    decreases n,
{
    if n < 10 {
        let s = dec_digits(n);
        assert(s.len() == 1);
        assert(s[0] == digit_char(n));
        assert((((48 + n) as u32) as char) as u32 == 48 + n);
        assert(is_digit(s[0]));
        assert(s.drop_last() =~= Seq::<char>::empty());
        assert(digits_val(Seq::<char>::empty()) == 0);
        assert(digits_val(s) == digit_val(s.last()));
        assert(digit_val(digit_char(n)) == n);
    } else {
        lemma_dec_digits(n / 10);
        let s = dec_digits(n);
        let head = dec_digits(n / 10);
        assert(s == head.push(digit_char(n % 10)));
        assert(s.drop_last() =~= head);
        assert(s.last() == digit_char(n % 10));
        assert((((48 + n % 10) as u32) as char) as u32 == 48 + n % 10);
        assert(digit_val(digit_char(n % 10)) == n % 10);
        assert forall|i: int| 0 <= i < s.len() implies is_digit(#[trigger] s[i]) by {
            if i < head.len() {
                assert(s[i] == head[i]);
            }
        }
        assert(digits_val(s) == digits_val(head) * 10 + (n % 10));
        assert(n == (n / 10) * 10 + n % 10);
    }
}

/// The canonical name of `n` is a generation record name, and it encodes
/// `n` again: formatting and parsing are inverse.
pub proof fn lemma_gen_name_id(n: nat)
    ensures
        is_gen_name(gen_name(n)),
        name_id(gen_name(n)) == n,
{
    lemma_dec_digits(n);
    let s = gen_name(n);
    assert(s.subrange(0, 8) =~= record_prefix());
    assert(s.skip(8) =~= dec_digits(n));
}

/// A single decimal digit as text.
fn digit_str(d: u32) -> (r: &'static str)
    requires
        d < 10,
    ensures
        r@ == seq![digit_char(d as nat)],
{
    let s: &'static str = match d {
        0 => "0",
        1 => "1",
        2 => "2",
        3 => "3",
        4 => "4",
        5 => "5",
        6 => "6",
        7 => "7",
        8 => "8",
        _ => "9",
    };
    proof {
        reveal_strlit("0");
        reveal_strlit("1");
        reveal_strlit("2");
        reveal_strlit("3");
        reveal_strlit("4");
        reveal_strlit("5");
        reveal_strlit("6");
        reveal_strlit("7");
        reveal_strlit("8");
        reveal_strlit("9");
        assert(s@ =~= seq![digit_char(d as nat)]);
    }
    s
}

/// Appends the canonical decimal digits of `n`.
fn push_digits(out: &mut String, n: u32)
    ensures
        final(out)@ == old(out)@ + dec_digits(n as nat),
    decreases n,
{
    if n < 10 {
        out.append(digit_str(n));
    } else {
        push_digits(out, n / 10);
        out.append(digit_str(n % 10));
        proof {
            assert(out@ =~= old(out)@ + dec_digits(n as nat));
        }
    }
}

/// The deterministic record name for the generation with id `id`.
pub fn generation_file_name(id: i32) -> (r: String)
    requires
        id >= 0,
    ensures
        r@ == gen_name(id as nat),
{
    let mut s = String::from_str("carbide-");
    proof {
        reveal_strlit("carbide-");
        assert(s@ =~= record_prefix());
    }
    push_digits(&mut s, id as u32);
    s
}

/// What a directory entry's name says about it.
#[derive(Debug, PartialEq)]
pub enum ParsedName {
    /// The name does not follow the record grammar: not a generation
    /// record, to be ignored.
    NotAGeneration,
    /// The name follows the grammar but its digits exceed the id range.
    IdOutOfRange,
    /// The name encodes this generation id.
    GenerationId(i32),
}

proof fn lemma_digits_val_snoc(s: Seq<char>, c: char)
    ensures
        digits_val(s.push(c)) == digits_val(s) * 10 + digit_val(c),
{
    assert(s.push(c).drop_last() =~= s);
    assert(s.push(c).last() == c);
}

/// Parses a directory entry's name against the record grammar.
pub fn parse_generation_file_name(name: &str) -> (r: ParsedName)
    ensures
        match r {
            ParsedName::NotAGeneration => !is_gen_name(name@),
            ParsedName::IdOutOfRange => is_gen_name(name@) && name_id(name@) > i32::MAX,
            ParsedName::GenerationId(id) => {
                &&& is_gen_name(name@)
                &&& 0 <= id
                &&& id as nat == name_id(name@)
            },
        },
{
    let n = name.unicode_len();
    if n <= 8 {
        return ParsedName::NotAGeneration;
    }
    let prefix_ok = name.get_char(0) == 'c' && name.get_char(1) == 'a' && name.get_char(2) == 'r'
        && name.get_char(3) == 'b' && name.get_char(4) == 'i' && name.get_char(5) == 'd'
        && name.get_char(6) == 'e' && name.get_char(7) == '-';
    if !prefix_ok {
        proof {
            assert(name@.subrange(0, 8) != record_prefix()) by {
                if name@.subrange(0, 8) == record_prefix() {
                    assert(name@.subrange(0, 8)[0] == name@[0]);
                    assert(name@.subrange(0, 8)[1] == name@[1]);
                    assert(name@.subrange(0, 8)[2] == name@[2]);
                    assert(name@.subrange(0, 8)[3] == name@[3]);
                    assert(name@.subrange(0, 8)[4] == name@[4]);
                    assert(name@.subrange(0, 8)[5] == name@[5]);
                    assert(name@.subrange(0, 8)[6] == name@[6]);
                    assert(name@.subrange(0, 8)[7] == name@[7]);
                }
            }
        }
        return ParsedName::NotAGeneration;
    }
    proof {
        assert(name@.subrange(0, 8) =~= record_prefix());
    }
    let ghost digits = name@.skip(8);
    let mut acc: u64 = 0;
    let mut over: bool = false;
    let mut i: usize = 8;
    proof {
        assert(digits.take(0) =~= Seq::<char>::empty());
    }
    while i < n
        invariant
            8 <= i <= n,
            n == name@.len(),
            digits == name@.skip(8),
            all_digits(digits.take(i - 8)),
            !over ==> acc <= i32::MAX as u64 && acc as nat == digits_val(digits.take(i - 8)),
            over ==> digits_val(digits.take(i - 8)) > i32::MAX,
        decreases n - i,
    {
        let c = name.get_char(i);
        let d = c as u32;
        proof {
            assert(digits[i - 8] == name@[i as int]);
        }
        if d < 48 || d > 57 {
            proof {
                assert(!is_digit(digits[i - 8]));
            }
            return ParsedName::NotAGeneration;
        }
        proof {
            lemma_digits_val_snoc(digits.take(i - 8), digits[i - 8]);
            assert(digits.take(i - 8).push(digits[i - 8]) =~= digits.take(i - 8 + 1));
        }
        if !over {
            let next = acc * 10 + ((d - 48) as u64);
            if next > i32::MAX as u64 {
                over = true;
            } else {
                acc = next;
            }
        }
        i += 1;
    }
    proof {
        assert(digits.take(n - 8) =~= digits);
    }
    if over {
        ParsedName::IdOutOfRange
    } else {
        ParsedName::GenerationId(acc as i32)
    }
}

/// Ascending by id, ties in any order.
pub open spec fn sorted_by_id(l: Seq<GenerationView>) -> bool {
    forall|i: int, j: int| 0 <= i < j < l.len() ==> l[i].id <= l[j].id
}

/// The entries whose names follow the record grammar, in directory order.
pub open spec fn matching(entries: Seq<StoreEntryView>) -> Seq<StoreEntryView> {
    entries.filter(|e: StoreEntryView| is_gen_name(e.name))
}

/// The generations the given records decode to, in order, or nothing when
/// any record is corrupt.
pub open spec fn decode_all(l: Seq<StoreEntryView>) -> Option<Seq<GenerationView>>
    decreases l.len(),
{
    if l.len() == 0 {
        Some(Seq::empty())
    } else {
        match dec_gen(l[0].data) {
            Some(g) => match decode_all(l.drop_first()) {
                Some(rest) => Some(seq![g] + rest),
                None => None,
            },
            None => None,
        }
    }
}

proof fn lemma_filter_push_entries(
    s: Seq<StoreEntryView>,
    x: StoreEntryView,
    pred: spec_fn(StoreEntryView) -> bool,
)
    ensures
        s.push(x).filter(pred) == if pred(x) {
            s.filter(pred).push(x)
        } else {
            s.filter(pred)
        },
{
    reveal(Seq::filter);
    assert(s.push(x).drop_last() =~= s);
    assert(s.push(x).last() == x);
}

proof fn lemma_decode_all_snoc(l: Seq<StoreEntryView>, e: StoreEntryView)
    ensures
        decode_all(l.push(e)) == match decode_all(l) {
            Some(rest) => match dec_gen(e.data) {
                Some(g) => Some(rest.push(g)),
                None => None,
            },
            None => None,
        },
    decreases l.len(),
{
    if l.len() == 0 {
        assert(l.push(e)[0] == e);
        assert(l.push(e).drop_first() =~= l);
        assert(decode_all(l) == Some(Seq::<GenerationView>::empty()));
        match dec_gen(e.data) {
            Some(g) => {
                assert(decode_all(l.push(e)) == Some(seq![g] + Seq::<GenerationView>::empty()));
                assert(seq![g] + Seq::<GenerationView>::empty() =~= Seq::<
                    GenerationView,
                >::empty().push(g));
            },
            None => {},
        }
    } else {
        assert(l.push(e)[0] == l[0]);
        assert(l.push(e).drop_first() =~= l.drop_first().push(e));
        assert(l.push(e).len() != 0);
        assert(decode_all(l.push(e)) == match dec_gen(l[0].data) {
            Some(g0) => match decode_all(l.drop_first().push(e)) {
                Some(rest) => Some(seq![g0] + rest),
                None => None,
            },
            None => None,
        });
        assert(decode_all(l) == match dec_gen(l[0].data) {
            Some(g0) => match decode_all(l.drop_first()) {
                Some(rest) => Some(seq![g0] + rest),
                None => None,
            },
            None => None,
        });
        lemma_decode_all_snoc(l.drop_first(), e);
        match dec_gen(l[0].data) {
            Some(g0) => {
                match decode_all(l.drop_first()) {
                    Some(rest) => {
                        match dec_gen(e.data) {
                            Some(g) => {
                                assert(decode_all(l.drop_first().push(e)) == Some(rest.push(g)));
                                assert(seq![g0] + rest.push(g) =~= (seq![g0] + rest).push(g));
                                assert(decode_all(l) == Some(seq![g0] + rest));
                            },
                            None => {
                                assert(decode_all(l.drop_first().push(e)) is None);
                            },
                        }
                    },
                    None => {
                        assert(decode_all(l.drop_first().push(e)) is None);
                    },
                }
            },
            None => {},
        }
    }
}

proof fn lemma_decode_all_none_app(a: Seq<StoreEntryView>, b: Seq<StoreEntryView>)
    requires
        decode_all(a) is None,
    ensures
        decode_all(a + b) is None,
    decreases b.len(),
{
    if b.len() == 0 {
        assert(a + b =~= a);
    } else {
        assert(a + b =~= (a + b.drop_last()).push(b.last()));
        lemma_decode_all_none_app(a, b.drop_last());
        lemma_decode_all_snoc(a + b.drop_last(), b.last());
    }
}

/// Where the record with id `id` belongs among `out`: before the first
/// record with a greater id.
fn find_insert_pos(out: &Vec<Generation>, id: i32) -> (pos: usize)
    ensures
        pos <= out@.len(),
        forall|k: int| 0 <= k < pos ==> out@[k]@.id <= id,
        pos < out@.len() ==> out@[pos as int]@.id > id,
{
    let mut i: usize = 0;
    while i < out.len()
        invariant
            i <= out@.len(),
            forall|k: int| 0 <= k < i ==> out@[k]@.id <= id,
        decreases out@.len() - i,
    {
        if out[i].id > id {
            return i;
        }
        i += 1;
    }
    i
}

/// Inserts a record into an id-sorted list, keeping it sorted.
fn insert_sorted(out: &mut Vec<Generation>, g: Generation)
    requires
        sorted_by_id(old(out)@.map_values(|x: Generation| x@)),
    ensures
        sorted_by_id(final(out)@.map_values(|x: Generation| x@)),
        final(out)@.map_values(|x: Generation| x@).to_multiset() == old(out)@.map_values(
            |x: Generation| x@,
        ).to_multiset().insert(g@),
{
    broadcast use vstd::multiset::group_multiset_axioms;

    let ghost pre = out@.map_values(|x: Generation| x@);
    let ghost gv = g@;
    let pos = find_insert_pos(out, g.id);
    out.insert(pos, g);
    proof {
        let post = out@.map_values(|x: Generation| x@);
        let t = pre.insert(pos as int, gv);
        pre.insert_ensures(pos as int, gv);
        assert(post =~= t) by {
            assert forall|k: int| 0 <= k < post.len() implies post[k] == t[k] by {
                assert(post[k] == out@[k]@);
                if k < pos {
                    assert(out@[k] == old(out)@[k]);
                    assert(pre[k] == old(out)@[k]@);
                } else if k > pos {
                    assert(out@[k] == old(out)@[k - 1]);
                    assert(pre[k - 1] == old(out)@[k - 1]@);
                }
            }
        }
        assert(sorted_by_id(post)) by {
            assert forall|i: int, j: int| 0 <= i < j < t.len() implies t[i].id <= t[j].id by {
                if j < pos {
                } else if i > pos {
                } else if i < pos && j == pos {
                    assert(t[i] == pre[i]);
                    assert(pre[i].id <= gv.id);
                } else if i == pos && j > pos {
                    assert(t[j] == pre[j - 1]);
                    if pos < pre.len() {
                        assert(pre[pos as int].id > gv.id);
                        if j - 1 > pos {
                            assert(pre[pos as int].id <= pre[j - 1].id);
                        }
                    }
                } else if i < pos && j > pos {
                    assert(t[i] == pre[i] && t[j] == pre[j - 1]);
                    assert(pre[i].id <= gv.id);
                    if pos < pre.len() {
                        assert(pre[pos as int].id > gv.id);
                        if j - 1 > pos {
                            assert(pre[pos as int].id <= pre[j - 1].id);
                        } else {
                            assert(j - 1 == pos);
                        }
                    } else {
                        assert(j - 1 < pre.len());
                        assert(false);
                    }
                }
            }
        }
        assert(t.to_multiset() == pre.to_multiset().insert(gv)) by {
            t.to_multiset_ensures();
            assert(t.remove(pos as int) =~= pre) by {
                t.remove_ensures(pos as int);
                assert forall|k: int| 0 <= k < pre.len() implies t.remove(pos as int)[k]
                    == pre[k] by {
                    if k < pos {
                        assert(t.remove(pos as int)[k] == t[k]);
                    } else {
                        assert(t.remove(pos as int)[k] == t[k + 1]);
                    }
                }
            }
            assert(t[pos as int] == gv);
            assert(t.to_multiset().remove(gv) == pre.to_multiset());
            assert(t.contains(gv)) by {
                assert(0 <= pos < t.len() && t[pos as int] == gv);
            }
            assert(t.to_multiset().count(gv) > 0);
            assert(t.to_multiset() =~= pre.to_multiset().insert(gv));
        }
    }
}

/// Reads every generation record among the given directory entries:
/// entries whose names do not follow the record grammar are ignored, every
/// record that remains is decoded, and the result comes back sorted
/// ascending by id.  Fails with `Codec` exactly when some record's bytes do
/// not decode.
pub fn read_generations(entries: &Vec<StoreEntry>) -> (r: Result<Vec<Generation>, StoreError>)
    ensures
        ({
            let evs = entries@.map_values(|e: StoreEntry| e@);
            match r {
                Ok(v) => {
                    &&& decode_all(matching(evs)) matches Some(gens)
                    &&& v@.map_values(|g: Generation| g@).to_multiset() == gens.to_multiset()
                    &&& sorted_by_id(v@.map_values(|g: Generation| g@))
                },
                Err(e) => e == StoreError::Codec && decode_all(matching(evs)) is None,
            }
        }),
{
    broadcast use vstd::seq_lib::group_seq_properties;

    let ghost evs = entries@.map_values(|e: StoreEntry| e@);
    let mut out: Vec<Generation> = Vec::new();
    let n = entries.len();
    let mut i: usize = 0;
    proof {
        reveal(Seq::filter);
        assert(evs.take(0) =~= Seq::<StoreEntryView>::empty());
        assert(out@.map_values(|g: Generation| g@) =~= Seq::<GenerationView>::empty());
        assert(decode_all(matching(evs.take(0))) == Some(Seq::<GenerationView>::empty()));
        assert(Seq::<GenerationView>::empty().to_multiset() =~= Seq::<
            GenerationView,
        >::empty().to_multiset());
    }
    while i < n
        invariant
            n == entries@.len(),
            i <= n,
            evs == entries@.map_values(|e: StoreEntry| e@),
            evs.len() == n,
            sorted_by_id(out@.map_values(|g: Generation| g@)),
            decode_all(matching(evs.take(i as int))) matches Some(gens) && out@.map_values(
                |g: Generation| g@,
            ).to_multiset() == gens.to_multiset(),
        decreases n - i,
    {
        let ghost ev = evs[i as int];
        proof {
            assert(ev == entries@[i as int]@);
            assert(evs.take(i as int).push(ev) =~= evs.take(i as int + 1));
            lemma_filter_push_entries(
                evs.take(i as int),
                ev,
                |e: StoreEntryView| is_gen_name(e.name),
            );
        }
        let keep = match parse_generation_file_name(entries[i].name.as_str()) {
            ParsedName::NotAGeneration => false,
            ParsedName::IdOutOfRange => true,
            ParsedName::GenerationId(_) => true,
        };
        if keep {
            match Generation::decode(entries[i].data.as_slice()) {
                Some(g) => {
                    proof {
                        lemma_decode_all_snoc(matching(evs.take(i as int)), ev);
                        let gens = decode_all(matching(evs.take(i as int)))->Some_0;
                        gens.to_multiset_ensures();
                    }
                    insert_sorted(&mut out, g);
                },
                None => {
                    proof {
                        lemma_decode_all_snoc(matching(evs.take(i as int)), ev);
                        assert(decode_all(matching(evs.take(i as int + 1))) is None);
                        assert(evs =~= evs.take(i as int + 1) + evs.skip(i as int + 1));
                        Seq::filter_distributes_over_add(
                            evs.take(i as int + 1),
                            evs.skip(i as int + 1),
                            |e: StoreEntryView| is_gen_name(e.name),
                        );
                        lemma_decode_all_none_app(
                            matching(evs.take(i as int + 1)),
                            matching(evs.skip(i as int + 1)),
                        );
                    }
                    return Err(StoreError::Codec);
                },
            }
        }
        i += 1;
    }
    proof {
        assert(evs.take(n as int) =~= evs);
    }
    Ok(out)
}

/// The greatest id any record name among the entries encodes, or -1 where
/// no entry names a record.
pub open spec fn highest_id(l: Seq<StoreEntryView>) -> int
    decreases l.len(),
{
    if l.len() == 0 {
        -1
    } else {
        let rest = highest_id(l.drop_last());
        let e = l.last();
        if is_gen_name(e.name) {
            if name_id(e.name) > rest {
                name_id(e.name) as int
            } else {
                rest
            }
        } else {
            rest
        }
    }
}

/// True when some entry names a record whose id exceeds the id range.
pub open spec fn has_overflow(l: Seq<StoreEntryView>) -> bool {
    exists|i: int| 0 <= i < l.len() && is_gen_name(#[trigger] l[i].name) && name_id(l[i].name)
        > i32::MAX
}

/// The first entry carrying exactly the given name, if any.
pub open spec fn named_entry(l: Seq<StoreEntryView>, name: Seq<char>) -> Option<StoreEntryView>
    decreases l.len(),
{
    if l.len() == 0 {
        None
    } else if l[0].name == name {
        Some(l[0])
    } else {
        named_entry(l.drop_first(), name)
    }
}

proof fn lemma_named_entry_at(l: Seq<StoreEntryView>, name: Seq<char>, j: int)
    requires
        0 <= j < l.len(),
        l[j].name == name,
        forall|k: int| 0 <= k < j ==> l[k].name != name,
    ensures
        named_entry(l, name) == Some(l[j]),
    decreases j,
{
    if j > 0 {
        assert(forall|k: int| 0 <= k < j - 1 ==> l.drop_first()[k] == l[k + 1]);
        lemma_named_entry_at(l.drop_first(), name, j - 1);
    }
}

proof fn lemma_named_entry_none(l: Seq<StoreEntryView>, name: Seq<char>)
    requires
        forall|k: int| 0 <= k < l.len() ==> l[k].name != name,
    ensures
        named_entry(l, name) is None,
    decreases l.len(),
{
    if l.len() > 0 {
        assert(forall|k: int| 0 <= k < l.len() - 1 ==> l.drop_first()[k] == l[k + 1]);
        lemma_named_entry_none(l.drop_first(), name);
    }
}

/// Finds the generation record with the greatest encoded id among the
/// given directory entries and decodes it.  `NotFound` is the expected
/// first-run answer: no entry names a generation record (or none carries
/// the canonical name of the greatest id).  `InvalidId` reports a record
/// name whose digits exceed the id range; `Codec` a record that does not
/// decode.
pub fn read_last_generation(entries: &Vec<StoreEntry>) -> (r: Result<Generation, StoreError>)
    ensures
        ({
            let evs = entries@.map_values(|e: StoreEntry| e@);
            match r {
                Ok(g) => {
                    &&& !has_overflow(evs)
                    &&& highest_id(evs) >= 0
                    &&& named_entry(evs, gen_name(highest_id(evs) as nat)) matches Some(e)
                    &&& dec_gen(e.data) == Some(g@)
                },
                Err(StoreError::InvalidId) => has_overflow(evs),
                Err(StoreError::NotFound) => {
                    &&& !has_overflow(evs)
                    &&& (highest_id(evs) < 0 || named_entry(
                        evs,
                        gen_name(highest_id(evs) as nat),
                    ) is None)
                },
                Err(StoreError::Codec) => {
                    &&& !has_overflow(evs)
                    &&& highest_id(evs) >= 0
                    &&& named_entry(evs, gen_name(highest_id(evs) as nat)) matches Some(e)
                    &&& dec_gen(e.data) is None
                },
            }
        }),
{
    let ghost evs = entries@.map_values(|e: StoreEntry| e@);
    let n = entries.len();
    let mut best: Option<i32> = None;
    let mut i: usize = 0;
    proof {
        assert(evs.take(0) =~= Seq::<StoreEntryView>::empty());
    }
    while i < n
        invariant
            n == entries@.len(),
            i <= n,
            evs == entries@.map_values(|e: StoreEntry| e@),
            evs.len() == n,
            !has_overflow(evs.take(i as int)),
            match best {
                None => highest_id(evs.take(i as int)) == -1,
                Some(m) => m >= 0 && m as int == highest_id(evs.take(i as int)),
            },
        decreases n - i,
    {
        let ghost ev = evs[i as int];
        proof {
            assert(ev == entries@[i as int]@);
            assert(evs.take(i as int + 1).drop_last() =~= evs.take(i as int));
            assert(evs.take(i as int + 1).last() == ev);
            assert(forall|k: int|
                0 <= k < i ==> evs.take(i as int + 1)[k] == evs.take(i as int)[k]);
        }
        match parse_generation_file_name(entries[i].name.as_str()) {
            ParsedName::NotAGeneration => {},
            ParsedName::IdOutOfRange => {
                proof {
                    assert(is_gen_name(evs[i as int].name) && name_id(evs[i as int].name)
                        > i32::MAX);
                }
                return Err(StoreError::InvalidId);
            },
            ParsedName::GenerationId(id) => {
                best = match best {
                    None => Some(id),
                    Some(m) => if id > m {
                        Some(id)
                    } else {
                        Some(m)
                    },
                };
            },
        }
        i += 1;
    }
    proof {
        assert(evs.take(n as int) =~= evs);
    }
    let m = match best {
        None => {
            return Err(StoreError::NotFound);
        },
        Some(m) => m,
    };
    let target = generation_file_name(m);
    let mut j: usize = 0;
    while j < n
        invariant
            n == entries@.len(),
            j <= n,
            evs == entries@.map_values(|e: StoreEntry| e@),
            evs.len() == n,
            target@ == gen_name(m as nat),
            m >= 0 && m as int == highest_id(evs),
            !has_overflow(evs),
            forall|k: int| 0 <= k < j ==> evs[k].name != target@,
        decreases n - j,
    {
        if entries[j].name == target {
            proof {
                assert(evs[j as int].name == target@);
                lemma_named_entry_at(evs, target@, j as int);
            }
            match Generation::decode(entries[j].data.as_slice()) {
                Some(g) => {
                    return Ok(g);
                },
                None => {
                    return Err(StoreError::Codec);
                },
            }
        }
        proof {
            assert(evs[j as int] == entries@[j as int]@);
        }
        j += 1;
    }
    proof {
        lemma_named_entry_none(evs, target@);
    }
    Err(StoreError::NotFound)
}

} // verus!
