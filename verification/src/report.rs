//! The result sink's document: a fully successful run is serialized to a
//! structured JSON report `{"systems": [...], "flake": "...", "result":
//! {name: [[step, system], ...], ...}}`. The renderer is specified byte for
//! byte; a specification-level parser decodes a report, and the round-trip
//! law states that the rendered document decodes to exactly the in-memory
//! run result. Writing the bytes to disk is the caller's concern.

use vstd::prelude::*;

use crate::bytes::byte_views;
use crate::engine::{RunResult, RunResultView, StepRun, StepRunView, SubResult, SubResultView};

verus! {

broadcast use {crate::bytes::lemma_bytes_deep_view, crate::bytes::lemma_bytes_list_deep_view};

/// The byte of the hexadecimal digit for `n` (lower case), for `n < 16`.
pub open spec fn hex_digit(n: u8) -> u8 {
    if n < 10 {
        (48 + n) as u8
    } else {
        (87 + n) as u8
    }
}

/// How one byte of a string appears inside a JSON string literal: quote and
/// backslash are escaped, control bytes take the `\u00XY` form, everything
/// else stands as itself.
pub open spec fn esc_byte(b: u8) -> Seq<u8> {
    if b == 34 {
        seq![92u8, 34u8]
    } else if b == 92 {
        seq![92u8, 92u8]
    } else if b < 32 {
        seq![92u8, 117u8, 48u8, 48u8, hex_digit(b / 16), hex_digit(b % 16)]
    } else {
        seq![b]
    }
}

/// A whole string escaped.
pub open spec fn esc(s: Seq<u8>) -> Seq<u8>
    decreases s.len(),
{
    if s.len() == 0 {
        Seq::empty()
    } else {
        esc_byte(s[0]) + esc(s.drop_first())
    }
}

/// A JSON string literal.
pub open spec fn jstr(s: Seq<u8>) -> Seq<u8> {
    seq![34u8] + esc(s) + seq![34u8]
}

/// Pre-rendered elements after the first, each preceded by a comma.
pub open spec fn join_tail(elems: Seq<Seq<u8>>) -> Seq<u8>
    decreases elems.len(),
{
    if elems.len() == 0 {
        Seq::empty()
    } else {
        seq![44u8] + elems[0] + join_tail(elems.drop_first())
    }
}

/// Pre-rendered elements joined with commas.
pub open spec fn join(elems: Seq<Seq<u8>>) -> Seq<u8> {
    if elems.len() == 0 {
        Seq::empty()
    } else {
        elems[0] + join_tail(elems.drop_first())
    }
}

/// One executed (step, system) pair as a two-element JSON array.
pub open spec fn jrun(r: StepRunView) -> Seq<u8> {
    seq![91u8] + jstr(r.step) + seq![44u8] + jstr(r.system) + seq![93u8]
}

/// One subflake's result-mapping entry: its name as the key, its executed
/// pairs as the value.
pub open spec fn jpair(r: SubResultView) -> Seq<u8> {
    jstr(r.name) + seq![58u8] + (seq![91u8] + join(r.runs.map_values(|x: StepRunView| jrun(x)))
        + seq![93u8])
}

/// The bytes of the key `systems`.
pub open spec fn key_systems() -> Seq<u8> {
    seq![115u8, 121u8, 115u8, 116u8, 101u8, 109u8, 115u8]
}

/// The bytes of the key `flake`.
pub open spec fn key_flake() -> Seq<u8> {
    seq![102u8, 108u8, 97u8, 107u8, 101u8]
}

/// The bytes of the key `result`.
pub open spec fn key_result() -> Seq<u8> {
    seq![114u8, 101u8, 115u8, 117u8, 108u8, 116u8]
}

/// The whole report document, byte for byte.
pub open spec fn report_bytes(r: RunResultView) -> Seq<u8> {
    seq![123u8] + jstr(key_systems()) + seq![58u8] + (seq![91u8] + join(
        r.systems.map_values(|x: Seq<u8>| jstr(x)),
    ) + seq![93u8]) + seq![44u8] + jstr(key_flake()) + seq![58u8] + jstr(r.flake) + seq![44u8]
        + jstr(key_result()) + seq![58u8] + (seq![123u8] + join(
        r.result.map_values(|x: SubResultView| jpair(x)),
    ) + seq![125u8]) + seq![125u8]
}

/// Joining one more element appends a comma and the element (or just the
/// element to an empty join).
proof fn lemma_join_push(elems: Seq<Seq<u8>>, e: Seq<u8>)
    ensures
        elems.len() == 0 ==> join(elems.push(e)) == e,
        elems.len() > 0 ==> join(elems.push(e)) == join(elems) + seq![44u8] + e,
    decreases elems.len(),
{
    if elems.len() == 0 {
        assert(elems.push(e)[0] == e);
        assert(elems.push(e).drop_first() =~= Seq::<Seq<u8>>::empty());
        assert(join_tail(Seq::<Seq<u8>>::empty()) == Seq::<u8>::empty());
        assert(join(elems.push(e)) =~= e);
    } else {
        lemma_join_tail_push(elems.drop_first(), e);
        assert(elems.push(e)[0] == elems[0]);
        assert(elems.push(e).drop_first() =~= elems.drop_first().push(e));
        assert(join(elems.push(e)) =~= join(elems) + seq![44u8] + e);
    }
}

proof fn lemma_join_tail_push(elems: Seq<Seq<u8>>, e: Seq<u8>)
    ensures
        join_tail(elems.push(e)) == join_tail(elems) + (seq![44u8] + e),
    decreases elems.len(),
{
    if elems.len() == 0 {
        assert(elems.push(e)[0] == e);
        assert(elems.push(e).drop_first() =~= Seq::<Seq<u8>>::empty());
        assert(join_tail(Seq::<Seq<u8>>::empty()) == Seq::<u8>::empty());
        assert(elems =~= Seq::<Seq<u8>>::empty());
        assert(join_tail(elems.push(e)) == seq![44u8] + (elems.push(e))[0] + join_tail(
            (elems.push(e)).drop_first(),
        ));
        assert(join_tail(elems.push(e)) =~= join_tail(elems) + (seq![44u8] + e));
    } else {
        lemma_join_tail_push(elems.drop_first(), e);
        assert(elems.push(e)[0] == elems[0]);
        assert(elems.push(e).drop_first() =~= elems.drop_first().push(e));
        assert(join_tail(elems.push(e)) == seq![44u8] + (elems.push(e))[0] + join_tail(
            (elems.push(e)).drop_first(),
        ));
        assert(join_tail((elems.push(e)).drop_first()) == join_tail(elems.drop_first()) + (
        seq![44u8] + e));
        assert(join_tail(elems.push(e)) =~= join_tail(elems) + (seq![44u8] + e));
    }
}

fn push_escaped(out: &mut Vec<u8>, s: &Vec<u8>)
    ensures
        final(out)@ == old(out)@ + esc(s@),
{
    let ghost base = old(out)@;
    let n = s.len();
    let mut i: usize = 0;
    proof {
        assert(s@.take(0) =~= Seq::<u8>::empty());
        assert(base + esc(s@.take(0)) =~= base);
    }
    while i < n
        invariant
            i <= n,
            n == s@.len(),
            out@ == base + esc(s@.take(i as int)),
        decreases n - i,
    {
        let b = s[i];
        let ghost pre = out@;
        if b == 34 {
            out.push(92);
            out.push(34);
        } else if b == 92 {
            out.push(92);
            out.push(92);
        } else if b < 32 {
            out.push(92);
            out.push(117);
            out.push(48);
            out.push(48);
            let hi = b / 16;
            let lo = b % 16;
            out.push(if hi < 10 {
                48 + hi
            } else {
                87 + hi
            });
            out.push(if lo < 10 {
                48 + lo
            } else {
                87 + lo
            });
        } else {
            out.push(b);
        }
        proof {
            assert(out@ =~= pre + esc_byte(s@[i as int]));
            lemma_esc_take_step(s@, i as int);
            assert(out@ =~= base + esc(s@.take(i as int + 1)));
        }
        i = i + 1;
    }
    proof {
        assert(s@.take(n as int) =~= s@);
    }
}

/// Escaping one more byte extends the escaped prefix.
proof fn lemma_esc_take_step(s: Seq<u8>, i: int)
    requires
        0 <= i < s.len(),
    ensures
        esc(s.take(i + 1)) == esc(s.take(i)) + esc_byte(s[i]),
    decreases i,
{
    if i == 0 {
        assert(s.take(1)[0] == s[0]);
        assert(s.take(1).drop_first() =~= Seq::<u8>::empty());
        assert(s.take(0) =~= Seq::<u8>::empty());
        assert(esc(s.take(1)) =~= esc(s.take(0)) + esc_byte(s[0]));
    } else {
        lemma_esc_take_step(s.drop_first(), i - 1);
        assert(s.take(i + 1)[0] == s[0]);
        assert(s.take(i + 1).drop_first() =~= s.drop_first().take(i));
        assert(s.take(i).drop_first() =~= s.drop_first().take(i - 1));
        assert(s.take(i)[0] == s[0]);
        assert(s.drop_first()[i - 1] == s[i]);
        assert(esc(s.take(i + 1)) =~= esc(s.take(i)) + esc_byte(s[i]));
    }
}

fn push_jstr(out: &mut Vec<u8>, s: &Vec<u8>)
    ensures
        final(out)@ == old(out)@ + jstr(s@),
{
    let ghost base = old(out)@;
    out.push(34);
    push_escaped(out, s);
    out.push(34);
    proof {
        assert(out@ =~= base + jstr(s@));
    }
}

fn push_jrun(out: &mut Vec<u8>, r: &StepRun)
    ensures
        final(out)@ == old(out)@ + jrun(r@),
{
    let ghost base = old(out)@;
    out.push(91);
    push_jstr(out, &r.step);
    out.push(44);
    push_jstr(out, &r.system);
    out.push(93);
    proof {
        assert(out@ =~= base + jrun(r@));
    }
}

fn push_jruns(out: &mut Vec<u8>, rs: &Vec<StepRun>)
    ensures
        final(out)@ == old(out)@ + (seq![91u8] + join(
            crate::engine::run_views(rs@).map_values(|x: StepRunView| jrun(x)),
        ) + seq![93u8]),
{
    let ghost elems = crate::engine::run_views(rs@).map_values(|x: StepRunView| jrun(x));
    let ghost base = old(out)@;
    out.push(91);
    let n = rs.len();
    let mut i: usize = 0;
    proof {
        assert(elems.take(0) =~= Seq::<Seq<u8>>::empty());
        assert(out@ =~= base + seq![91u8] + join(elems.take(0)));
    }
    while i < n
        invariant
            i <= n,
            n == rs@.len(),
            elems == crate::engine::run_views(rs@).map_values(|x: StepRunView| jrun(x)),
            elems.len() == n,
            out@ == base + seq![91u8] + join(elems.take(i as int)),
        decreases n - i,
    {
        if i > 0 {
            out.push(44);
        }
        push_jrun(out, &rs[i]);
        proof {
            assert(elems.take(i as int).push(elems[i as int]) =~= elems.take(i as int + 1));
            lemma_join_push(elems.take(i as int), elems[i as int]);
            assert(elems[i as int] == jrun(rs@[i as int]@));
            assert(out@ =~= base + seq![91u8] + join(elems.take(i as int + 1)));
        }
        i = i + 1;
    }
    out.push(93);
    proof {
        assert(elems.take(n as int) =~= elems);
        assert(out@ =~= base + (seq![91u8] + join(elems) + seq![93u8]));
    }
}

fn push_jpair(out: &mut Vec<u8>, r: &SubResult)
    ensures
        final(out)@ == old(out)@ + jpair(r@),
{
    let ghost base = old(out)@;
    push_jstr(out, &r.name);
    out.push(58);
    push_jruns(out, &r.outcome.runs);
    proof {
        assert(out@ =~= base + jpair(r@));
    }
}

fn push_jstr_list(out: &mut Vec<u8>, ss: &Vec<Vec<u8>>)
    ensures
        final(out)@ == old(out)@ + (seq![91u8] + join(
            byte_views(ss@).map_values(|x: Seq<u8>| jstr(x)),
        ) + seq![93u8]),
{
    let ghost selems = byte_views(ss@).map_values(|x: Seq<u8>| jstr(x));
    let ghost base0 = old(out)@;
    out.push(91);
    let n = ss.len();
    let mut i: usize = 0;
    proof {
        assert(selems.take(0) =~= Seq::<Seq<u8>>::empty());
        assert(out@ =~= base0 + seq![91u8] + join(selems.take(0)));
    }
    while i < n
        invariant
            i <= n,
            n == ss@.len(),
            selems == byte_views(ss@).map_values(|x: Seq<u8>| jstr(x)),
            selems.len() == n,
            out@ == base0 + seq![91u8] + join(selems.take(i as int)),
        decreases n - i,
    {
        if i > 0 {
            out.push(44);
        }
        push_jstr(out, &ss[i]);
        proof {
            assert(selems.take(i as int).push(selems[i as int]) =~= selems.take(i as int + 1));
            lemma_join_push(selems.take(i as int), selems[i as int]);
            assert(byte_views(ss@)[i as int] == ss@[i as int]@);
            assert(selems[i as int] == jstr(ss@[i as int]@));
            assert(out@ =~= base0 + seq![91u8] + join(selems.take(i as int + 1)));
        }
        i = i + 1;
    }
    proof {
        assert(selems.take(n as int) =~= selems);
    }
    out.push(93);
    proof {
        assert(out@ =~= base0 + (seq![91u8] + join(selems) + seq![93u8]));
    }
}

fn push_jresult(out: &mut Vec<u8>, rs: &Vec<SubResult>)
    ensures
        final(out)@ == old(out)@ + (seq![123u8] + join(
            crate::engine::sub_views(rs@).map_values(|x: SubResultView| jpair(x)),
        ) + seq![125u8]),
{
    let ghost pelems = crate::engine::sub_views(rs@).map_values(|x: SubResultView| jpair(x));
    let ghost base1 = old(out)@;
    out.push(123);
    let m = rs.len();
    let mut j: usize = 0;
    proof {
        assert(pelems.take(0) =~= Seq::<Seq<u8>>::empty());
        assert(out@ =~= base1 + seq![123u8] + join(pelems.take(0)));
    }
    while j < m
        invariant
            j <= m,
            m == rs@.len(),
            pelems == crate::engine::sub_views(rs@).map_values(|x: SubResultView| jpair(x)),
            pelems.len() == m,
            out@ == base1 + seq![123u8] + join(pelems.take(j as int)),
        decreases m - j,
    {
        if j > 0 {
            out.push(44);
        }
        push_jpair(out, &rs[j]);
        proof {
            assert(pelems.take(j as int).push(pelems[j as int]) =~= pelems.take(j as int + 1));
            lemma_join_push(pelems.take(j as int), pelems[j as int]);
            assert(crate::engine::sub_views(rs@)[j as int] == rs@[j as int]@);
            assert(pelems[j as int] == jpair(rs@[j as int]@));
            assert(out@ =~= base1 + seq![123u8] + join(pelems.take(j as int + 1)));
        }
        j = j + 1;
    }
    proof {
        assert(pelems.take(m as int) =~= pelems);
    }
    out.push(125);
    proof {
        assert(out@ =~= base1 + (seq![123u8] + join(pelems) + seq![125u8]));
    }
}

/// Serializes a run result into its report document. The caller decides
/// whether and where the bytes are persisted; a run without a requested
/// destination simply never calls for them.
pub fn render_report(r: &RunResult) -> (out: Vec<u8>)
    ensures
        out@ == report_bytes(r@),
{
    let mut out: Vec<u8> = Vec::new();
    out.push(123);
    let mut key: Vec<u8> = Vec::new();
    key.push(115);
    key.push(121);
    key.push(115);
    key.push(116);
    key.push(101);
    key.push(109);
    key.push(115);
    proof {
        assert(key@ =~= key_systems());
    }
    push_jstr(&mut out, &key);
    out.push(58);
    proof {
        assert(r@.systems == byte_views(r.systems@));
    }
    push_jstr_list(&mut out, &r.systems);
    out.push(44);
    let mut key2: Vec<u8> = Vec::new();
    key2.push(102);
    key2.push(108);
    key2.push(97);
    key2.push(107);
    key2.push(101);
    proof {
        assert(key2@ =~= key_flake());
    }
    push_jstr(&mut out, &key2);
    out.push(58);
    push_jstr(&mut out, &r.flake);
    out.push(44);
    let mut key3: Vec<u8> = Vec::new();
    key3.push(114);
    key3.push(101);
    key3.push(115);
    key3.push(117);
    key3.push(108);
    key3.push(116);
    proof {
        assert(key3@ =~= key_result());
    }
    push_jstr(&mut out, &key3);
    out.push(58);
    proof {
        assert(r@.result == crate::engine::sub_views(r.result@));
    }
    push_jresult(&mut out, &r.result);
    out.push(125);
    proof {
        assert(out@ =~= report_bytes(r@));
    }
    out
}


/// A decoded report document: what reading a written report back yields —
/// the platform set, the flake reference, and the result mapping with each
/// subflake's executed (step, system) pairs.
pub struct ReportDoc {
    pub systems: Seq<Seq<u8>>,
    pub flake: Seq<u8>,
    pub result: Seq<(Seq<u8>, Seq<StepRunView>)>,
}

/// The document a run result stands for.
pub open spec fn doc_of(r: RunResultView) -> ReportDoc {
    ReportDoc {
        systems: r.systems,
        flake: r.flake,
        result: r.result.map_values(|s: SubResultView| (s.name, s.runs)),
    }
}

/// The value of a hexadecimal digit byte.
pub open spec fn hexval(c: u8) -> u8 {
    if 48 <= c <= 57 {
        (c - 48) as u8
    } else if 97 <= c <= 102 {
        (c - 87) as u8
    } else {
        0
    }
}

/// Whether a byte is a lower-case hexadecimal digit.
pub open spec fn is_hex(c: u8) -> bool {
    (48 <= c <= 57) || (97 <= c <= 102)
}

/// Decodes a JSON string body (the opening quote already consumed) up to
/// its closing quote: the decoded bytes and the rest of the input.
pub open spec fn p_string(s: Seq<u8>) -> Option<(Seq<u8>, Seq<u8>)>
    decreases s.len(),
{
    if s.len() == 0 {
        None
    } else if s[0] == 34 {
        Some((Seq::empty(), s.drop_first()))
    } else if s[0] == 92 {
        if s.len() >= 2 && s[1] == 34 {
            match p_string(s.skip(2)) {
                None => None,
                Some((v, rest)) => Some((seq![34u8] + v, rest)),
            }
        } else if s.len() >= 2 && s[1] == 92 {
            match p_string(s.skip(2)) {
                None => None,
                Some((v, rest)) => Some((seq![92u8] + v, rest)),
            }
        } else if s.len() >= 6 && s[1] == 117 && s[2] == 48 && s[3] == 48 && is_hex(s[4]) && is_hex(
            s[5],
        ) {
            match p_string(s.skip(6)) {
                None => None,
                Some((v, rest)) => Some((seq![(16 * hexval(s[4]) + hexval(s[5])) as u8] + v, rest)),
            }
        } else {
            None
        }
    } else {
        match p_string(s.drop_first()) {
            None => None,
            Some((v, rest)) => Some((seq![s[0]] + v, rest)),
        }
    }
}

/// Decodes a whole JSON string literal.
pub open spec fn p_jstr(s: Seq<u8>) -> Option<(Seq<u8>, Seq<u8>)> {
    if s.len() > 0 && s[0] == 34 {
        p_string(s.drop_first())
    } else {
        None
    }
}

/// Decodes one rendered (step, system) pair.
pub open spec fn p_run(s: Seq<u8>) -> Option<(StepRunView, Seq<u8>)> {
    if s.len() > 0 && s[0] == 91 {
        match p_jstr(s.drop_first()) {
            None => None,
            Some((step, r1)) => if r1.len() > 0 && r1[0] == 44 {
                match p_jstr(r1.drop_first()) {
                    None => None,
                    Some((system, r2)) => if r2.len() > 0 && r2[0] == 93 {
                        Some((StepRunView { step, system }, r2.drop_first()))
                    } else {
                        None
                    },
                }
            } else {
                None
            },
        }
    } else {
        None
    }
}

/// Decodes the elements after the first of a string list, each preceded by
/// a comma, up to the closing bracket.
pub open spec fn p_jstr_items(s: Seq<u8>, fuel: nat) -> Option<(Seq<Seq<u8>>, Seq<u8>)>
    decreases fuel,
{
    if s.len() == 0 {
        None
    } else if s[0] == 93 {
        Some((Seq::empty(), s.drop_first()))
    } else if s[0] == 44 && fuel > 0 {
        match p_jstr(s.drop_first()) {
            None => None,
            Some((v, rest)) => match p_jstr_items(rest, (fuel - 1) as nat) {
                None => None,
                Some((vs, rest2)) => Some((seq![v] + vs, rest2)),
            },
        }
    } else {
        None
    }
}

/// Decodes a whole string list.
pub open spec fn p_jstr_list(s: Seq<u8>, fuel: nat) -> Option<(Seq<Seq<u8>>, Seq<u8>)> {
    if s.len() > 0 && s[0] == 91 {
        let t = s.drop_first();
        if t.len() > 0 && t[0] == 93 {
            Some((Seq::empty(), t.drop_first()))
        } else {
            match p_jstr(t) {
                None => None,
                Some((v, rest)) => match p_jstr_items(rest, fuel) {
                    None => None,
                    Some((vs, rest2)) => Some((seq![v] + vs, rest2)),
                },
            }
        }
    } else {
        None
    }
}

/// Decodes the later elements of a (step, system) list.
pub open spec fn p_run_items(s: Seq<u8>, fuel: nat) -> Option<(Seq<StepRunView>, Seq<u8>)>
    decreases fuel,
{
    if s.len() == 0 {
        None
    } else if s[0] == 93 {
        Some((Seq::empty(), s.drop_first()))
    } else if s[0] == 44 && fuel > 0 {
        match p_run(s.drop_first()) {
            None => None,
            Some((v, rest)) => match p_run_items(rest, (fuel - 1) as nat) {
                None => None,
                Some((vs, rest2)) => Some((seq![v] + vs, rest2)),
            },
        }
    } else {
        None
    }
}

/// Decodes a whole (step, system) list.
pub open spec fn p_run_list(s: Seq<u8>, fuel: nat) -> Option<(Seq<StepRunView>, Seq<u8>)> {
    if s.len() > 0 && s[0] == 91 {
        let t = s.drop_first();
        if t.len() > 0 && t[0] == 93 {
            Some((Seq::empty(), t.drop_first()))
        } else {
            match p_run(t) {
                None => None,
                Some((v, rest)) => match p_run_items(rest, fuel) {
                    None => None,
                    Some((vs, rest2)) => Some((seq![v] + vs, rest2)),
                },
            }
        }
    } else {
        None
    }
}

/// Decodes one result-mapping entry: a name, a colon, and its pair list.
pub open spec fn p_pair(s: Seq<u8>, fuel: nat) -> Option<((Seq<u8>, Seq<StepRunView>), Seq<u8>)> {
    match p_jstr(s) {
        None => None,
        Some((name, r1)) => if r1.len() > 0 && r1[0] == 58 {
            match p_run_list(r1.drop_first(), fuel) {
                None => None,
                Some((runs, r2)) => Some(((name, runs), r2)),
            }
        } else {
            None
        },
    }
}

/// Decodes the later entries of the result mapping.
pub open spec fn p_pair_items(s: Seq<u8>, fuel: nat) -> Option<
    (Seq<(Seq<u8>, Seq<StepRunView>)>, Seq<u8>),
>
    decreases fuel,
{
    if s.len() == 0 {
        None
    } else if s[0] == 125 {
        Some((Seq::empty(), s.drop_first()))
    } else if s[0] == 44 && fuel > 0 {
        match p_pair(s.drop_first(), fuel) {
            None => None,
            Some((v, rest)) => match p_pair_items(rest, (fuel - 1) as nat) {
                None => None,
                Some((vs, rest2)) => Some((seq![v] + vs, rest2)),
            },
        }
    } else {
        None
    }
}

/// Decodes the whole result mapping.
pub open spec fn p_pair_list(s: Seq<u8>, fuel: nat) -> Option<
    (Seq<(Seq<u8>, Seq<StepRunView>)>, Seq<u8>),
> {
    if s.len() > 0 && s[0] == 123 {
        let t = s.drop_first();
        if t.len() > 0 && t[0] == 125 {
            Some((Seq::empty(), t.drop_first()))
        } else {
            match p_pair(t, fuel) {
                None => None,
                Some((v, rest)) => match p_pair_items(rest, fuel) {
                    None => None,
                    Some((vs, rest2)) => Some((seq![v] + vs, rest2)),
                },
            }
        }
    } else {
        None
    }
}

/// Consumes an exact literal prefix.
pub open spec fn expect(s: Seq<u8>, lit: Seq<u8>) -> Option<Seq<u8>> {
    if s.len() >= lit.len() && s.take(lit.len() as int) == lit {
        Some(s.skip(lit.len() as int))
    } else {
        None
    }
}

/// Decodes a whole report document; `None` on anything but a report of the
/// exact shape the renderer writes.
pub open spec fn p_report(s: Seq<u8>) -> Option<ReportDoc> {
    let fuel = s.len();
    match expect(s, seq![123u8] + jstr(key_systems()) + seq![58u8]) {
        None => None,
        Some(r1) => match p_jstr_list(r1, fuel) {
            None => None,
            Some((systems, r2)) => match expect(r2, seq![44u8] + jstr(key_flake()) + seq![58u8]) {
                None => None,
                Some(r3) => match p_jstr(r3) {
                    None => None,
                    Some((flake, r4)) => match expect(
                        r4,
                        seq![44u8] + jstr(key_result()) + seq![58u8],
                    ) {
                        None => None,
                        Some(r5) => match p_pair_list(r5, fuel) {
                            None => None,
                            Some((result, r6)) => if r6 =~= seq![125u8] {
                                Some(ReportDoc { systems, flake, result })
                            } else {
                                None
                            },
                        },
                    },
                },
            },
        },
    }
}

proof fn lemma_expect_round(lit: Seq<u8>, rest: Seq<u8>)
    ensures
        expect(lit + rest, lit) == Some(rest),
{
    assert((lit + rest).take(lit.len() as int) =~= lit);
    assert((lit + rest).skip(lit.len() as int) =~= rest);
}

/// Decoding inverts escaping: the escaped bytes up to the closing quote
/// decode to exactly the original string, leaving the rest untouched.
proof fn lemma_p_string_round(s: Seq<u8>, rest: Seq<u8>)
    ensures
        p_string(esc(s) + seq![34u8] + rest) == Some((s, rest)),
    decreases s.len(),
{
    let input = esc(s) + seq![34u8] + rest;
    if s.len() == 0 {
        assert(esc(s) =~= Seq::<u8>::empty());
        assert(input[0] == 34);
        assert(input.drop_first() =~= rest);
        assert(s =~= Seq::<u8>::empty());
    } else {
        lemma_p_string_round(s.drop_first(), rest);
        let b = s[0];
        let tail_input = esc(s.drop_first()) + seq![34u8] + rest;
        assert(input =~= esc_byte(b) + tail_input);
        if b == 34 {
            assert(input[0] == 92 && input[1] == 34);
            assert(input.skip(2) =~= tail_input);
            assert(seq![34u8] + s.drop_first() =~= s);
        } else if b == 92 {
            assert(input[0] == 92 && input[1] == 92);
            assert(input.skip(2) =~= tail_input);
            assert(seq![92u8] + s.drop_first() =~= s);
        } else if b < 32 {
            assert(input[0] == 92 && input[1] == 117 && input[2] == 48 && input[3] == 48);
            assert(input[4] == hex_digit(b / 16) && input[5] == hex_digit(b % 16));
            assert(b / 16 < 10 && is_hex(hex_digit(b / 16)));
            assert(is_hex(hex_digit(b % 16)));
            assert(hexval(hex_digit(b / 16)) == b / 16);
            assert(hexval(hex_digit(b % 16)) == b % 16);
            assert(16 * (b / 16) + b % 16 == b);
            assert(input.skip(6) =~= tail_input);
            assert(seq![b] + s.drop_first() =~= s);
        } else {
            assert(input[0] == b && b != 34 && b != 92);
            assert(input.drop_first() =~= tail_input);
            assert(seq![b] + s.drop_first() =~= s);
        }
    }
}

proof fn lemma_p_jstr_round(s: Seq<u8>, rest: Seq<u8>)
    ensures
        p_jstr(jstr(s) + rest) == Some((s, rest)),
{
    let input = jstr(s) + rest;
    assert(input[0] == 34);
    assert(input.drop_first() =~= esc(s) + seq![34u8] + rest);
    lemma_p_string_round(s, rest);
}

proof fn lemma_p_run_round(r: StepRunView, rest: Seq<u8>)
    ensures
        p_run(jrun(r) + rest) == Some((r, rest)),
{
    let input = jrun(r) + rest;
    assert(input[0] == 91);
    assert(input.drop_first() =~= jstr(r.step) + (seq![44u8] + jstr(r.system) + seq![93u8]
        + rest));
    lemma_p_jstr_round(r.step, seq![44u8] + jstr(r.system) + seq![93u8] + rest);
    let r1 = seq![44u8] + jstr(r.system) + seq![93u8] + rest;
    assert(r1[0] == 44);
    assert(r1.drop_first() =~= jstr(r.system) + (seq![93u8] + rest));
    lemma_p_jstr_round(r.system, seq![93u8] + rest);
    let r2 = seq![93u8] + rest;
    assert(r2[0] == 93);
    assert(r2.drop_first() =~= rest);
}


proof fn lemma_join_tail_len(elems: Seq<Seq<u8>>)
    ensures
        join_tail(elems).len() >= elems.len(),
    decreases elems.len(),
{
    if elems.len() > 0 {
        lemma_join_tail_len(elems.drop_first());
    }
}

proof fn lemma_join_len(elems: Seq<Seq<u8>>)
    requires
        forall|i: int| 0 <= i < elems.len() ==> #[trigger] elems[i].len() >= 1,
    ensures
        join(elems).len() >= elems.len(),
{
    if elems.len() > 0 {
        lemma_join_tail_len(elems.drop_first());
    }
}

proof fn lemma_join_tail_elem_len(elems: Seq<Seq<u8>>, i: int)
    requires
        0 <= i < elems.len(),
    ensures
        join_tail(elems).len() >= elems[i].len() + elems.len(),
    decreases elems.len(),
{
    lemma_join_tail_len(elems.drop_first());
    if i > 0 {
        lemma_join_tail_elem_len(elems.drop_first(), i - 1);
    }
}

proof fn lemma_join_elem_len(elems: Seq<Seq<u8>>, i: int)
    requires
        0 <= i < elems.len(),
    ensures
        join(elems).len() >= elems[i].len() + elems.len() - 1,
{
    lemma_join_tail_len(elems.drop_first());
    if i > 0 {
        lemma_join_tail_elem_len(elems.drop_first(), i - 1);
    }
}

proof fn lemma_p_jstr_items_round(ss: Seq<Seq<u8>>, rest: Seq<u8>, fuel: nat)
    requires
        fuel >= ss.len(),
    ensures
        p_jstr_items(
            join_tail(ss.map_values(|x: Seq<u8>| jstr(x))) + seq![93u8] + rest,
            fuel,
        ) == Some((ss, rest)),
    decreases ss.len(),
{
    let m = ss.map_values(|x: Seq<u8>| jstr(x));
    let input = join_tail(m) + seq![93u8] + rest;
    if ss.len() == 0 {
        assert(m =~= Seq::<Seq<u8>>::empty());
        assert(join_tail(Seq::<Seq<u8>>::empty()) == Seq::<u8>::empty());
        assert(input[0] == 93);
        assert(input.drop_first() =~= rest);
        assert(ss =~= Seq::<Seq<u8>>::empty());
    } else {
        let tail = ss.drop_first();
        let mt = tail.map_values(|x: Seq<u8>| jstr(x));
        assert(m[0] == jstr(ss[0]));
        assert(m.drop_first() =~= mt);
        let tail_rest = join_tail(mt) + seq![93u8] + rest;
        assert(input =~= seq![44u8] + (jstr(ss[0]) + tail_rest));
        assert(input[0] == 44);
        assert(input.drop_first() =~= jstr(ss[0]) + tail_rest);
        lemma_p_jstr_round(ss[0], tail_rest);
        lemma_p_jstr_items_round(tail, rest, (fuel - 1) as nat);
        assert(seq![ss[0]] + tail =~= ss);
    }
}

proof fn lemma_p_jstr_list_round(ss: Seq<Seq<u8>>, rest: Seq<u8>, fuel: nat)
    requires
        fuel >= ss.len(),
    ensures
        p_jstr_list(
            seq![91u8] + join(ss.map_values(|x: Seq<u8>| jstr(x))) + seq![93u8] + rest,
            fuel,
        ) == Some((ss, rest)),
{
    let m = ss.map_values(|x: Seq<u8>| jstr(x));
    let input = seq![91u8] + join(m) + seq![93u8] + rest;
    assert(input[0] == 91);
    if ss.len() == 0 {
        assert(m =~= Seq::<Seq<u8>>::empty());
        assert(input.drop_first() =~= seq![93u8] + rest);
        assert(input.drop_first()[0] == 93);
        assert(input.drop_first().drop_first() =~= rest);
        assert(ss =~= Seq::<Seq<u8>>::empty());
    } else {
        let tail = ss.drop_first();
        let mt = tail.map_values(|x: Seq<u8>| jstr(x));
        assert(m[0] == jstr(ss[0]));
        assert(m.drop_first() =~= mt);
        let tail_rest = join_tail(mt) + seq![93u8] + rest;
        assert(input.drop_first() =~= jstr(ss[0]) + tail_rest);
        assert(input.drop_first()[0] == 34);
        lemma_p_jstr_round(ss[0], tail_rest);
        lemma_p_jstr_items_round(tail, rest, fuel);
        assert(seq![ss[0]] + tail =~= ss);
    }
}

proof fn lemma_p_run_items_round(rs: Seq<StepRunView>, rest: Seq<u8>, fuel: nat)
    requires
        fuel >= rs.len(),
    ensures
        p_run_items(
            join_tail(rs.map_values(|x: StepRunView| jrun(x))) + seq![93u8] + rest,
            fuel,
        ) == Some((rs, rest)),
    decreases rs.len(),
{
    let m = rs.map_values(|x: StepRunView| jrun(x));
    let input = join_tail(m) + seq![93u8] + rest;
    if rs.len() == 0 {
        assert(m =~= Seq::<Seq<u8>>::empty());
        assert(join_tail(Seq::<Seq<u8>>::empty()) == Seq::<u8>::empty());
        assert(input[0] == 93);
        assert(input.drop_first() =~= rest);
        assert(rs =~= Seq::<StepRunView>::empty());
    } else {
        let tail = rs.drop_first();
        let mt = tail.map_values(|x: StepRunView| jrun(x));
        assert(m[0] == jrun(rs[0]));
        assert(m.drop_first() =~= mt);
        let tail_rest = join_tail(mt) + seq![93u8] + rest;
        assert(input =~= seq![44u8] + (jrun(rs[0]) + tail_rest));
        assert(input[0] == 44);
        assert(input.drop_first() =~= jrun(rs[0]) + tail_rest);
        lemma_p_run_round(rs[0], tail_rest);
        lemma_p_run_items_round(tail, rest, (fuel - 1) as nat);
        assert(seq![rs[0]] + tail =~= rs);
    }
}

proof fn lemma_p_run_list_round(rs: Seq<StepRunView>, rest: Seq<u8>, fuel: nat)
    requires
        fuel >= rs.len(),
    ensures
        p_run_list(
            seq![91u8] + join(rs.map_values(|x: StepRunView| jrun(x))) + seq![93u8] + rest,
            fuel,
        ) == Some((rs, rest)),
{
    let m = rs.map_values(|x: StepRunView| jrun(x));
    let input = seq![91u8] + join(m) + seq![93u8] + rest;
    assert(input[0] == 91);
    if rs.len() == 0 {
        assert(m =~= Seq::<Seq<u8>>::empty());
        assert(input.drop_first() =~= seq![93u8] + rest);
        assert(input.drop_first()[0] == 93);
        assert(input.drop_first().drop_first() =~= rest);
        assert(rs =~= Seq::<StepRunView>::empty());
    } else {
        let tail = rs.drop_first();
        let mt = tail.map_values(|x: StepRunView| jrun(x));
        assert(m[0] == jrun(rs[0]));
        assert(m.drop_first() =~= mt);
        let tail_rest = join_tail(mt) + seq![93u8] + rest;
        assert(input.drop_first() =~= jrun(rs[0]) + tail_rest);
        assert(input.drop_first()[0] == 91);
        assert(input.drop_first()[0] != 93);
        lemma_p_run_round(rs[0], tail_rest);
        lemma_p_run_items_round(tail, rest, fuel);
        assert(seq![rs[0]] + tail =~= rs);
    }
}

proof fn lemma_p_pair_round(sr: SubResultView, rest: Seq<u8>, fuel: nat)
    requires
        fuel >= sr.runs.len(),
    ensures
        p_pair(jpair(sr) + rest, fuel) == Some(((sr.name, sr.runs), rest)),
{
    let m = sr.runs.map_values(|x: StepRunView| jrun(x));
    let runs_bytes = seq![91u8] + join(m) + seq![93u8];
    let input = jpair(sr) + rest;
    let r1 = seq![58u8] + runs_bytes + rest;
    assert(input =~= jstr(sr.name) + r1);
    lemma_p_jstr_round(sr.name, r1);
    assert(r1[0] == 58);
    assert(r1.drop_first() =~= runs_bytes + rest);
    assert(runs_bytes + rest =~= seq![91u8] + join(m) + seq![93u8] + rest);
    lemma_p_run_list_round(sr.runs, rest, fuel);
}

proof fn lemma_p_pair_items_round(rs: Seq<SubResultView>, rest: Seq<u8>, fuel: nat)
    requires
        fuel >= rs.len(),
        forall|i: int| 0 <= i < rs.len() ==> fuel >= rs.len() + #[trigger] rs[i].runs.len(),
    ensures
        p_pair_items(
            join_tail(rs.map_values(|x: SubResultView| jpair(x))) + seq![125u8] + rest,
            fuel,
        ) == Some((rs.map_values(|s: SubResultView| (s.name, s.runs)), rest)),
    decreases rs.len(),
{
    let m = rs.map_values(|x: SubResultView| jpair(x));
    let doc = rs.map_values(|s: SubResultView| (s.name, s.runs));
    let input = join_tail(m) + seq![125u8] + rest;
    if rs.len() == 0 {
        assert(m =~= Seq::<Seq<u8>>::empty());
        assert(join_tail(Seq::<Seq<u8>>::empty()) == Seq::<u8>::empty());
        assert(input[0] == 125);
        assert(input.drop_first() =~= rest);
        assert(doc =~= Seq::<(Seq<u8>, Seq<StepRunView>)>::empty());
    } else {
        let tail = rs.drop_first();
        let mt = tail.map_values(|x: SubResultView| jpair(x));
        assert(m[0] == jpair(rs[0]));
        assert(m.drop_first() =~= mt);
        let tail_rest = join_tail(mt) + seq![125u8] + rest;
        assert(input =~= seq![44u8] + (jpair(rs[0]) + tail_rest));
        assert(input[0] == 44);
        assert(input.drop_first() =~= jpair(rs[0]) + tail_rest);
        assert(fuel >= rs.len() + rs[0].runs.len());
        lemma_p_pair_round(rs[0], tail_rest, fuel);
        assert forall|i: int| 0 <= i < tail.len() implies (fuel - 1) as nat >= tail.len()
            + #[trigger] tail[i].runs.len() by {
            assert(tail[i] == rs[i + 1]);
            assert(fuel >= rs.len() + rs[i + 1].runs.len());
        }
        lemma_p_pair_items_round(tail, rest, (fuel - 1) as nat);
        assert(seq![(rs[0].name, rs[0].runs)] + tail.map_values(
            |s: SubResultView| (s.name, s.runs),
        ) =~= doc);
    }
}

proof fn lemma_p_pair_list_round(rs: Seq<SubResultView>, rest: Seq<u8>, fuel: nat)
    requires
        fuel >= rs.len(),
        forall|i: int| 0 <= i < rs.len() ==> fuel >= rs.len() + #[trigger] rs[i].runs.len(),
    ensures
        p_pair_list(
            seq![123u8] + join(rs.map_values(|x: SubResultView| jpair(x))) + seq![125u8] + rest,
            fuel,
        ) == Some((rs.map_values(|s: SubResultView| (s.name, s.runs)), rest)),
{
    let m = rs.map_values(|x: SubResultView| jpair(x));
    let doc = rs.map_values(|s: SubResultView| (s.name, s.runs));
    let input = seq![123u8] + join(m) + seq![125u8] + rest;
    assert(input[0] == 123);
    if rs.len() == 0 {
        assert(m =~= Seq::<Seq<u8>>::empty());
        assert(input.drop_first() =~= seq![125u8] + rest);
        assert(input.drop_first()[0] == 125);
        assert(input.drop_first().drop_first() =~= rest);
        assert(doc =~= Seq::<(Seq<u8>, Seq<StepRunView>)>::empty());
    } else {
        let tail = rs.drop_first();
        let mt = tail.map_values(|x: SubResultView| jpair(x));
        assert(m[0] == jpair(rs[0]));
        assert(m.drop_first() =~= mt);
        let tail_rest = join_tail(mt) + seq![125u8] + rest;
        assert(input.drop_first() =~= jpair(rs[0]) + tail_rest);
        assert((jpair(rs[0]) + tail_rest)[0] == 34);
        assert(fuel >= rs.len() + rs[0].runs.len());
        lemma_p_pair_round(rs[0], tail_rest, fuel);
        assert forall|i: int| 0 <= i < tail.len() implies fuel >= tail.len()
            + #[trigger] tail[i].runs.len() by {
            assert(tail[i] == rs[i + 1]);
            assert(fuel >= rs.len() + rs[i + 1].runs.len());
        }
        lemma_p_pair_items_round(tail, rest, fuel);
        assert(seq![(rs[0].name, rs[0].runs)] + tail.map_values(
            |s: SubResultView| (s.name, s.runs),
        ) =~= doc);
    }
}

/// Round trip: a written report, read back, decodes to exactly the document
/// of the in-memory run result — the same platform set, the same flake
/// reference, and the same result mapping.
pub proof fn lemma_report_round_trip(r: RunResultView)
    ensures
        p_report(report_bytes(r)) == Some(doc_of(r)),
{
    let s = report_bytes(r);
    let fuel = s.len();
    let msys = r.systems.map_values(|x: Seq<u8>| jstr(x));
    let mres = r.result.map_values(|x: SubResultView| jpair(x));
    let hdr1 = seq![123u8] + jstr(key_systems()) + seq![58u8];
    let hdr2 = seq![44u8] + jstr(key_flake()) + seq![58u8];
    let hdr3 = seq![44u8] + jstr(key_result()) + seq![58u8];
    let r1 = seq![91u8] + join(msys) + seq![93u8] + (hdr2 + (jstr(r.flake) + (hdr3 + (seq![123u8]
        + join(mres) + seq![125u8] + seq![125u8]))));
    assert(s =~= hdr1 + r1);
    lemma_expect_round(hdr1, r1);
    // fuel covers both lists: each rendered element is at least one byte long
    assert forall|i: int| 0 <= i < msys.len() implies #[trigger] msys[i].len() >= 1 by {
        assert(msys[i] == jstr(r.systems[i]));
    }
    lemma_join_len(msys);
    assert(fuel >= r.systems.len());
    let rest2 = hdr2 + (jstr(r.flake) + (hdr3 + (seq![123u8] + join(mres) + seq![125u8]
        + seq![125u8])));
    assert(r1 =~= seq![91u8] + join(msys) + seq![93u8] + rest2);
    lemma_p_jstr_list_round(r.systems, rest2, fuel);
    let rest3 = jstr(r.flake) + (hdr3 + (seq![123u8] + join(mres) + seq![125u8] + seq![125u8]));
    assert(rest2 =~= hdr2 + rest3);
    lemma_expect_round(hdr2, rest3);
    let rest4 = hdr3 + (seq![123u8] + join(mres) + seq![125u8] + seq![125u8]);
    lemma_p_jstr_round(r.flake, rest4);
    let rest5 = seq![123u8] + join(mres) + seq![125u8] + seq![125u8];
    lemma_expect_round(hdr3, rest5);
    assert forall|i: int| 0 <= i < r.result.len() implies fuel >= r.result.len()
        + #[trigger] r.result[i].runs.len() by {
        let runs_m = r.result[i].runs.map_values(|x: StepRunView| jrun(x));
        assert forall|k: int| 0 <= k < runs_m.len() implies #[trigger] runs_m[k].len() >= 1 by {
            assert(runs_m[k] == jrun(r.result[i].runs[k]));
        }
        lemma_join_len(runs_m);
        assert(mres[i] == jpair(r.result[i]));
        assert(mres[i].len() >= r.result[i].runs.len());
        lemma_join_elem_len(mres, i);
        assert(join(mres).len() >= r.result[i].runs.len() + r.result.len() - 1);
        assert(fuel >= join(mres).len() + 1);
    }
    assert(fuel >= r.result.len()) by {
        if r.result.len() > 0 {
            assert forall|i: int| 0 <= i < mres.len() implies #[trigger] mres[i].len() >= 1 by {
                assert(mres[i] == jpair(r.result[i]));
            }
            lemma_join_len(mres);
        }
    }
    assert(rest5 =~= seq![123u8] + join(mres) + seq![125u8] + seq![125u8]);
    lemma_p_pair_list_round(r.result, seq![125u8], fuel);
    assert(p_pair_list(rest5, fuel) == Some(
        (r.result.map_values(|x: SubResultView| (x.name, x.runs)), seq![125u8]),
    ));
}

} // verus!


