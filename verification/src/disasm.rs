//! The disassembler: infer labels for unnamed call and reference targets,
//! group the stream into chunks, and print the whole file back as
//! re-assemblable text.
use vstd::prelude::*;

use crate::assembler::{mn_by_opcode, mnemonic_by_opcode, opt_bytes};
use crate::escape::StrUnit;
use crate::pool::StringType;
use crate::stcm2::{same_but_export, Action, Parameter, Stcm2};
use crate::text::Encoding;
use crate::Error;

verus! {

/// Some action calls the one at `addr`.
pub open spec fn is_fn_target(acts: Seq<(u32, Action)>, addr: u32) -> bool {
    exists|k: int| 0 <= k < acts.len() && (#[trigger] acts[k]).1.call && acts[k].1.opcode == addr
}

/// Some action's operand references the one at `addr`.
pub open spec fn is_ref_target(acts: Seq<(u32, Action)>, addr: u32) -> bool {
    exists|k: int, j: int|
        #![trigger acts[k].1.params@[j]]
        0 <= k < acts.len() && 0 <= j < acts[k].1.params@.len() && acts[k].1.params@[j]
            == Parameter::ActionRef(addr)
}

/// The uppercase hex digits of `v` as ASCII bytes, no leading zeros.
pub open spec fn uhex_bytes(v: int) -> Seq<u8>
    decreases v,
{
    if v <= 0 {
        seq![]
    } else {
        uhex_bytes(v / 16).push(uhex_byte(v % 16))
    }
}

pub open spec fn uhex_byte(d: int) -> u8 {
    if d < 10 {
        (48 + d) as u8
    } else {
        (65 + d - 10) as u8
    }
}

pub open spec fn fmt_hex_bytes(v: int) -> Seq<u8> {
    if v == 0 {
        seq![48u8]
    } else {
        uhex_bytes(v)
    }
}

/// The label an unnamed call target gets: `fn_` and its address in hex.
pub open spec fn fn_label(addr: u32) -> Seq<u8> {
    seq![102u8, 110, 95] + fmt_hex_bytes(addr as int)
}

/// The label an unnamed reference target gets: `local_` and its address.
pub open spec fn local_label(addr: u32) -> Seq<u8> {
    seq![108u8, 111, 99, 97, 108, 95] + fmt_hex_bytes(addr as int)
}

/// What the inference assigns: an unnamed call target is a function, an
/// unnamed reference target a local, and everything else keeps its name.
pub open spec fn autolabel_of(acts: Seq<(u32, Action)>, e: (u32, Action)) -> Option<Seq<u8>> {
    match e.1.export {
        Some(n) => Some(n@),
        None => if is_fn_target(acts, e.0) {
            Some(fn_label(e.0))
        } else if is_ref_target(acts, e.0) {
            Some(local_label(e.0))
        } else {
            None
        },
    }
}

/// Every call and reference target is an action of the stream.
pub open spec fn targets_ok(acts: Seq<(u32, Action)>) -> bool {
    &&& forall|k: int|
        0 <= k < acts.len() && (#[trigger] acts[k]).1.call ==> exists|i: int|
            0 <= i < acts.len() && (#[trigger] acts[i]).0 == acts[k].1.opcode
    &&& forall|k: int, j: int|
        #![trigger acts[k].1.params@[j]]
        0 <= k < acts.len() && 0 <= j < acts[k].1.params@.len() && acts[k].1.params@[j]
            is ActionRef ==> exists|i: int|
            0 <= i < acts.len() && (#[trigger] acts[i]).0 == acts[k].1.params@[j]->ActionRef_0
}

/// The autolabeled stream against the decoded one: same addresses, same
/// records but for the export, each export exactly the inferred label.
pub open spec fn labeled_from(sacts: Seq<(u32, Action)>, acts: Seq<(u32, Action)>) -> bool {
    &&& acts.len() == sacts.len()
    &&& forall|i: int|
        0 <= i < acts.len() ==> (#[trigger] acts[i]).0 == sacts[i].0 && same_but_export(
            acts[i].1,
            sacts[i].1,
        ) && opt_bytes(acts[i].1.export) == autolabel_of(sacts, sacts[i])
}

fn exists_call_to(acts: &Vec<(u32, Action)>, addr: u32) -> (r: bool)
    ensures
        r == is_fn_target(acts@, addr),
{
    let mut k: usize = 0;
    while k < acts.len()
        invariant
            k <= acts@.len(),
            forall|t: int|
                0 <= t < k ==> !((#[trigger] acts@[t]).1.call && acts@[t].1.opcode == addr),
        decreases acts@.len() - k,
    {
        if acts[k].1.call && acts[k].1.opcode == addr {
            return true;
        }
        k = k + 1;
    }
    false
}

fn exists_ref_to(acts: &Vec<(u32, Action)>, addr: u32) -> (r: bool)
    ensures
        r == is_ref_target(acts@, addr),
{
    let mut k: usize = 0;
    while k < acts.len()
        invariant
            k <= acts@.len(),
            forall|t: int, j: int|
                #![trigger acts@[t].1.params@[j]]
                0 <= t < k && 0 <= j < acts@[t].1.params@.len() ==> acts@[t].1.params@[j]
                    != Parameter::ActionRef(addr),
        decreases acts@.len() - k,
    {
        let e = &acts[k].1;
        let mut j: usize = 0;
        while j < e.params.len()
            invariant
                k < acts@.len(),
                e == acts@[k as int].1,
                j <= e.params@.len(),
                forall|t: int| 0 <= t < j ==> #[trigger] e.params@[t] != Parameter::ActionRef(addr),
            decreases e.params@.len() - j,
        {
            match e.params[j] {
                Parameter::ActionRef(a) => {
                    if a == addr {
                        return true;
                    }
                },
                _ => (),
            }
            j = j + 1;
        }
        k = k + 1;
    }
    false
}

/// Append the uppercase hex ASCII bytes of `v`.
fn push_hex_bytes(out: &mut Vec<u8>, v: u32)
    ensures
        final(out)@ == old(out)@ + fmt_hex_bytes(v as int),
{
    if v == 0 {
        out.push(48);
        proof {
            assert(out@ =~= old(out)@ + fmt_hex_bytes(v as int));
        }
        return ;
    }
    let mut digits: Vec<u8> = Vec::new();
    let mut x = v;
    while x > 0
        invariant
            digits@.len() <= 8,
            uhex_bytes(v as int) =~= uhex_bytes(x as int) + digits@.reverse(),
            x > 0 || digits@.len() > 0,
        decreases x,
    {
        let ghost pre = digits@;
        let d = (x % 16) as u8;
        digits.push(
            if d < 10 {
                48 + d
            } else {
                65 + d - 10
            },
        );
        proof {
            assert(digits@.reverse() =~= seq![uhex_byte(x as int % 16)] + pre.reverse());
            assert(uhex_bytes(x as int) == uhex_bytes(x as int / 16).push(uhex_byte(x as int % 16)));
            assert(uhex_bytes(x as int / 16) + digits@.reverse() =~= uhex_bytes(x as int)
                + pre.reverse());
            if digits@.len() > 8 {
                lemma_uhex_bytes_len(v as int);
                assert(false);
            }
        }
        x = x / 16;
    }
    let mut i: usize = digits.len();
    proof {
        assert(uhex_bytes(v as int) =~= digits@.reverse());
    }
    while i > 0
        invariant
            i <= digits@.len(),
            out@ == old(out)@ + digits@.reverse().take(digits@.len() - i),
        decreases i,
    {
        i = i - 1;
        out.push(digits[i]);
        proof {
            assert(digits@.reverse()[digits@.len() - i - 1] == digits@[i as int]);
            assert(out@ =~= old(out)@ + digits@.reverse().take(digits@.len() - i));
        }
    }
    proof {
        assert(digits@.reverse().take(digits@.len() as int) =~= digits@.reverse());
    }
}

proof fn lemma_uhex_bytes_len(v: int)
    requires
        v <= u32::MAX,
    ensures
        uhex_bytes(v).len() <= 8,
    decreases v,
{
    if v > 0 {
        assert(crate::escape::pow16(0) == 1);
        assert(crate::escape::pow16(1) == 16);
        assert(crate::escape::pow16(2) == 256);
        assert(crate::escape::pow16(3) == 4096);
        assert(crate::escape::pow16(4) == 0x10000);
        assert(crate::escape::pow16(5) == 0x100000);
        assert(crate::escape::pow16(6) == 0x1000000);
        assert(crate::escape::pow16(7) == 0x10000000);
        assert(crate::escape::pow16(8) == 0x100000000);
        lemma_uhex_bytes_len8(v, 8);
    }
}

proof fn lemma_uhex_bytes_len8(v: int, k: nat)
    requires
        0 <= v,
        v < crate::escape::pow16(k),
    ensures
        uhex_bytes(v).len() <= k,
    decreases k,
{
    if v > 0 {
        assert(k > 0);
        lemma_uhex_bytes_len8(v / 16, (k - 1) as nat);
    }
}

/// Infer and attach the automatic labels: every unnamed call target gets a
/// `fn_` label, every other unnamed reference target a `local_` label.
/// Fails when a call or reference targets no action. The result is a
/// function of the stream alone, so disassembling twice assigns the same
/// labels.
pub fn attach_autolabels(acts: Vec<(u32, Action)>) -> (r: Result<Vec<(u32, Action)>, Error>)
    ensures
        match r {
            Ok(out) => {
                &&& targets_ok(acts@)
                &&& out@.len() == acts@.len()
                &&& forall|i: int|
                    0 <= i < acts@.len() ==> (#[trigger] out@[i]).0 == acts@[i].0
                        && same_but_export(out@[i].1, acts@[i].1) && opt_bytes(out@[i].1.export)
                        == autolabel_of(acts@, acts@[i])
            },
            Err(e) => e == Error::UnknownExport && !targets_ok(acts@),
        },
{
    // every target must exist
    let mut k: usize = 0;
    while k < acts.len()
        invariant
            k <= acts@.len(),
            forall|t: int|
                0 <= t < k && (#[trigger] acts@[t]).1.call ==> exists|i: int|
                    0 <= i < acts@.len() && (#[trigger] acts@[i]).0 == acts@[t].1.opcode,
            forall|t: int, j: int|
                #![trigger acts@[t].1.params@[j]]
                0 <= t < k && 0 <= j < acts@[t].1.params@.len() && acts@[t].1.params@[j]
                    is ActionRef ==> exists|i: int|
                    0 <= i < acts@.len() && (#[trigger] acts@[i]).0 == acts@[t].1.params@[
                        j
                    ]->ActionRef_0,
        decreases acts@.len() - k,
    {
        let a = &acts[k].1;
        if a.call {
            match crate::stcm2::find_action(&acts, a.opcode) {
                Some(_) => (),
                None => {
                    proof {
                        assert(!targets_ok(acts@));
                    }
                    return Err(Error::UnknownExport);
                },
            }
        }
        let mut j: usize = 0;
        while j < a.params.len()
            invariant
                k < acts@.len(),
                a == acts@[k as int].1,
                j <= a.params@.len(),
                forall|t: int|
                    0 <= t < j && (#[trigger] a.params@[t]) is ActionRef ==> exists|i: int|
                        0 <= i < acts@.len() && (#[trigger] acts@[i]).0 == a.params@[
                            t
                        ]->ActionRef_0,
            decreases a.params@.len() - j,
        {
            match a.params[j] {
                Parameter::ActionRef(addr) => {
                    match crate::stcm2::find_action(&acts, addr) {
                        Some(_) => (),
                        None => {
                            proof {
                                assert(acts@[k as int].1.params@[j as int]->ActionRef_0 == addr);
                                assert(!targets_ok(acts@));
                            }
                            return Err(Error::UnknownExport);
                        },
                    }
                },
                _ => (),
            }
            j = j + 1;
        }
        k = k + 1;
    }

    // attach the inferred labels
    let mut out: Vec<(u32, Action)> = Vec::new();
    let mut i: usize = 0;
    while i < acts.len()
        invariant
            i <= acts@.len(),
            out@.len() == i,
            forall|t: int|
                0 <= t < i ==> (#[trigger] out@[t]).0 == acts@[t].0 && same_but_export(
                    out@[t].1,
                    acts@[t].1,
                ) && opt_bytes(out@[t].1.export) == autolabel_of(acts@, acts@[t]),
        decreases acts@.len() - i,
    {
        let addr = acts[i].0;
        let a = &acts[i].1;
        let export: Option<Vec<u8>>;
        match &a.export {
            Some(n) => {
                export = Some(crate::words::copy_range(n, 0, n.len()));
            },
            None => {
                if exists_call_to(&acts, addr) {
                    let mut lb: Vec<u8> = Vec::new();
                    lb.push(102);
                    lb.push(110);
                    lb.push(95);
                    push_hex_bytes(&mut lb, addr);
                    proof {
                        assert(lb@ =~= fn_label(addr));
                    }
                    export = Some(lb);
                } else if exists_ref_to(&acts, addr) {
                    let mut lb: Vec<u8> = Vec::new();
                    lb.push(108);
                    lb.push(111);
                    lb.push(99);
                    lb.push(97);
                    lb.push(108);
                    lb.push(95);
                    push_hex_bytes(&mut lb, addr);
                    proof {
                        assert(lb@ =~= local_label(addr));
                    }
                    export = Some(lb);
                } else {
                    export = None;
                }
            },
        }
        let b = Action {
            export,
            call: a.call,
            opcode: a.opcode,
            params: crate::stcm2::copy_params(&a.params),
            data: crate::words::copy_range(&a.data, 0, a.data.len()),
        };
        proof {
            assert(b.call == acts@[i as int].1.call);
            assert(b.opcode == acts@[i as int].1.opcode);
            assert(b.params@ == acts@[i as int].1.params@);
            assert(b.data@ == acts@[i as int].1.data@);
            assert(same_but_export(b, acts@[i as int].1));
            assert(opt_bytes(b.export) == autolabel_of(acts@, acts@[i as int]));
        }
        out.push((addr, b));
        i = i + 1;
    }
    Ok(out)
}

/// The label assignment depends on the stream alone: any two assignments
/// that the inference accepts for equal streams are equal.
pub proof fn lemma_autolabels_idempotent(
    acts1: Seq<(u32, Action)>,
    acts2: Seq<(u32, Action)>,
    i: int,
)
    requires
        acts1 == acts2,
        0 <= i < acts1.len(),
    ensures
        autolabel_of(acts1, acts1[i]) == autolabel_of(acts2, acts2[i]),
{
}

} // verus!

verus! {

/// Push every char of a string's view.
fn push_str_chars(out: &mut Vec<char>, s: &str)
    ensures
        final(out)@ == old(out)@ + s@,
{
    let v = crate::text::str_to_chars(s);
    let mut i: usize = 0;
    while i < v.len()
        invariant
            i <= v@.len(),
            v@ == s@,
            out@ == old(out)@ + v@.take(i as int),
        decreases v@.len() - i,
    {
        out.push(v[i]);
        proof {
            assert(old(out)@ + v@.take(i + 1) =~= (old(out)@ + v@.take(i as int)).push(
                v@[i as int],
            ));
        }
        i = i + 1;
    }
    proof {
        assert(v@.take(v@.len() as int) =~= v@);
    }
}

/// Push the chars of raw label bytes, escaped for printing.
fn push_label_chars(out: &mut Vec<char>, label: &Vec<u8>)
{
    let chars = crate::escape::label_to_string(label);
    let mut i: usize = 0;
    while i < chars.len()
        invariant
            i <= chars@.len(),
        decreases chars@.len() - i,
    {
        out.push(chars[i]);
        i = i + 1;
    }
}

/// Is this char a control char, to be escaped in string output?
fn is_ctrl(c: char) -> (r: bool)
{
    let v = c as u32;
    v < 0x20 || (0x7F <= v && v <= 0x9F)
}

/// Push a two-digit lowercase hex byte.
fn push_hex2(out: &mut Vec<char>, v: u32)
    requires
        v < 256,
{
    out.push(crate::escape::lhex_digit(v / 16));
    out.push(crate::escape::lhex_digit(v % 16));
}

/// The printable label of an action, as `Action::label` leaves it.
fn action_label(a: &Action, junk: bool) -> (r: Option<Vec<u8>>)
    ensures
        match r {
            Some(l) => crate::stcm2::label_spec(*a, junk) == Some(l@),
            None => crate::stcm2::label_spec(*a, junk) is None,
        },
{
    a.label(junk)
}

/// The least offset at or after `p` where a whole cell decodes.
pub open spec fn first_cell(d: Seq<u8>, p: int) -> Option<int>
    decreases d.len() - p,
    when 0 <= p <= d.len()
{
    if p >= d.len() {
        None
    } else if crate::pool::cell_valid(d, p) {
        Some(p)
    } else {
        first_cell(d, p + 1)
    }
}

/// From `p`, cells decode back to back and end exactly at the pool's end.
pub open spec fn cells_chain(d: Seq<u8>, p: int) -> bool
    decreases d.len() - p,
    when 0 <= p <= d.len()
{
    if p >= d.len() {
        true
    } else if !crate::pool::cell_valid(d, p) {
        false
    } else {
        cells_chain(d, crate::pool::cell_end(d, p))
    }
}

/// Is `off` the start of one of the chained cells from `p`?
pub open spec fn is_cell_start(d: Seq<u8>, p: int, off: int) -> bool
    decreases d.len() - p,
    when 0 <= p <= d.len()
{
    if p >= d.len() {
        false
    } else if !crate::pool::cell_valid(d, p) {
        false
    } else {
        off == p || is_cell_start(d, crate::pool::cell_end(d, p), off)
    }
}

/// The data pool has the shape the printer needs: an optional raw junk
/// prefix, then encoded cells chained to the very end.
pub open spec fn pool_ok(d: Seq<u8>) -> bool {
    &&& d.len() <= u32::MAX
    &&& match first_cell(d, 0) {
        None => true,
        Some(p0) => cells_chain(d, p0),
    }
}

/// Is this pool offset one of the decoded cells' starts?
pub open spec fn is_pool_ptr(d: Seq<u8>, off: u32) -> bool {
    match first_cell(d, 0) {
        None => false,
        Some(p0) => is_cell_start(d, p0, off as int),
    }
}

/// The scanned list holds exactly the chained cells' offsets.
pub open spec fn cells_complete(d: Seq<u8>, cells: Seq<(u32, StringType)>) -> bool {
    forall|off: u32|
        is_pool_ptr(d, off) <==> exists|ci: int|
            0 <= ci < cells.len() && (#[trigger] cells[ci]).0 == off
}

/// Scan an action's data pool: the optional raw junk prefix, then the
/// contiguous encoded cells to the very end. The returned list holds
/// exactly the chained cells' offsets.
#[verifier::rlimit(100)]
fn scan_pool(data: &Vec<u8>) -> (r: Result<(usize, Vec<(u32, StringType)>), Error>)
    ensures
        match r {
            Ok((junk_len, cells)) => {
                &&& junk_len <= data@.len()
                &&& pool_ok(data@)
                &&& cells_complete(data@, cells@)
            },
            Err(e) => e == Error::BadCell && !pool_ok(data@),
        },
{
    let n = data.len();
    if n > u32::MAX as usize {
        return Err(Error::BadCell);
    }
    let mut p0: usize = 0;
    let mut found = false;
    while p0 < n && !found
        invariant
            p0 <= n,
            n == data@.len(),
            n <= u32::MAX,
            first_cell(data@, 0) == first_cell(data@, p0 as int),
            found ==> p0 < n && crate::pool::cell_valid(data@, p0 as int),
        decreases n - p0, (if found {
            0int
        } else {
            1int
        }),
    {
        match crate::pool::decode_string(data, p0 as u32) {
            Ok(_) => {
                found = true;
            },
            Err(_) => {
                p0 = p0 + 1;
            },
        }
    }
    if !found {
        // the whole pool is raw junk
        let empty_cells: Vec<(u32, StringType)> = Vec::new();
        proof {
            assert(first_cell(data@, p0 as int) is None);
            assert(first_cell(data@, 0) is None);
            assert forall|off: u32|
                is_pool_ptr(data@, off) <==> exists|ci: int|
                    0 <= ci < empty_cells@.len() && (#[trigger] empty_cells@[ci]).0 == off by {
                assert(!is_pool_ptr(data@, off));
            }
            assert(cells_complete(data@, empty_cells@));
        }
        return Ok((n, empty_cells));
    }
    proof {
        assert(first_cell(data@, 0) == Some(p0 as int));
    }
    let mut cells: Vec<(u32, StringType)> = Vec::new();
    let mut p: usize = p0;
    while p < n
        invariant
            p0 <= p <= n,
            n == data@.len(),
            n <= u32::MAX,
            first_cell(data@, 0) == Some(p0 as int),
            cells_chain(data@, p0 as int) == cells_chain(data@, p as int),
            forall|off: u32|
                is_cell_start(data@, p0 as int, off as int) <==> (exists|ci: int|
                    0 <= ci < cells@.len() && (#[trigger] cells@[ci]).0 == off) || is_cell_start(
                    data@,
                    p as int,
                    off as int,
                ),
        decreases n - p,
    {
        match crate::pool::decode_string(data, p as u32) {
            Ok((st, end)) => {
                let ghost pre_cells = cells@;
                cells.push((p as u32, st));
                proof {
                    assert(crate::pool::cell_valid(data@, p as int));
                    assert(end == crate::pool::cell_end(data@, p as int));
                    assert(cells_chain(data@, p as int) == cells_chain(data@, end as int));
                    assert forall|off: u32|
                        is_cell_start(data@, p0 as int, off as int) <==> (exists|ci: int|
                            0 <= ci < cells@.len() && (#[trigger] cells@[ci]).0 == off)
                            || is_cell_start(data@, end as int, off as int) by {
                        assert(is_cell_start(data@, p as int, off as int) == (off == p
                            || is_cell_start(data@, end as int, off as int)));
                        if exists|ci: int|
                            0 <= ci < pre_cells.len() && (#[trigger] pre_cells[ci]).0 == off {
                            let ci = choose|ci: int|
                                0 <= ci < pre_cells.len() && (#[trigger] pre_cells[ci]).0 == off;
                            assert(cells@[ci].0 == off);
                        }
                        if off == p {
                            assert(cells@[pre_cells.len() as int].0 == off);
                        }
                        if exists|ci: int|
                            0 <= ci < cells@.len() && (#[trigger] cells@[ci]).0 == off {
                            let ci = choose|ci: int|
                                0 <= ci < cells@.len() && (#[trigger] cells@[ci]).0 == off;
                            if ci < pre_cells.len() {
                                assert(pre_cells[ci].0 == off);
                            } else {
                                assert(off == p);
                            }
                        }
                    }
                }
                p = end;
            },
            Err(e) => {
                proof {
                    assert(!crate::pool::cell_valid(data@, p as int));
                    assert(!cells_chain(data@, p as int));
                }
                return Err(Error::BadCell);
            },
        }
    }
    proof {
        assert(p == n);
        assert(cells_chain(data@, n as int));
        assert(cells_chain(data@, p0 as int));
        assert(pool_ok(data@));
        assert forall|off: u32|
            is_pool_ptr(data@, off) <==> exists|ci: int|
                0 <= ci < cells@.len() && (#[trigger] cells@[ci]).0 == off by {
            assert(!is_cell_start(data@, n as int, off as int));
            assert(is_cell_start(data@, p0 as int, off as int) <==> (exists|ci: int|
                0 <= ci < cells@.len() && (#[trigger] cells@[ci]).0 == off) || is_cell_start(
                data@,
                p as int,
                off as int,
            ));
        }
        assert(cells_complete(data@, cells@));
    }
    Ok((p0, cells))
}

/// Find the decoded cell that starts at this pool offset.
fn cell_at(cells: &Vec<(u32, StringType)>, off: u32) -> (r: Option<usize>)
    ensures
        match r {
            Some(i) => i < cells@.len() && cells@[i as int].0 == off,
            None => forall|ci: int| 0 <= ci < cells@.len() ==> (#[trigger] cells@[ci]).0 != off,
        },
{
    let mut i: usize = 0;
    while i < cells.len()
        invariant
            i <= cells@.len(),
            forall|ci: int| 0 <= ci < i ==> (#[trigger] cells@[ci]).0 != off,
        decreases cells@.len() - i,
    {
        if cells[i].0 == off {
            return Some(i);
        }
        i = i + 1;
    }
    None
}

/// Render one decoded text cell's chars with the escape grammar: control
/// chars as the raw bytes of their encoding, one `\xHH` each (the escape
/// splices a literal byte past the codec), quotes and backslashes escaped,
/// undecodable bytes as `\XHH`.
fn push_text_units(out: &mut Vec<char>, units: &Vec<StrUnit>, enc: Encoding)
{
    let mut i: usize = 0;
    while i < units.len()
        invariant
            i <= units@.len(),
        decreases units@.len() - i,
    {
        match units[i] {
            StrUnit::Ch(c) => {
                if is_ctrl(c) {
                    let mut one: Vec<char> = Vec::new();
                    one.push(c);
                    let bytes = crate::text::encode_chars(enc, &one);
                    let mut bi: usize = 0;
                    while bi < bytes.len()
                        invariant
                            bi <= bytes@.len(),
                        decreases bytes@.len() - bi,
                    {
                        out.push('\\');
                        out.push('x');
                        push_hex2(out, bytes[bi] as u32);
                        bi = bi + 1;
                    }
                } else if c == '"' || c == '\\' {
                    out.push('\\');
                    out.push(c);
                } else {
                    out.push(c);
                }
            },
            StrUnit::Raw(b) => {
                out.push('\\');
                out.push('X');
                push_hex2(out, b as u32);
            },
        }
        i = i + 1;
    }
}

/// Append the decimal-or-hex rendering of a pool integer literal, with the
/// `@` prefix for header type one.
fn push_int_cell(out: &mut Vec<char>, type1: bool, v: u32)
{
    out.push(',');
    out.push(' ');
    if type1 {
        out.push('@');
    }
    out.push('=');
    if v < 0x10000000 {
        crate::escape::push_dec_u32(out, v);
    } else {
        crate::escape::push_hex_u32(out, v);
        out.push('h');
    }
}

/// Print a whole decoded file back as assembly text: the tag, global-data
/// and code-start headers, then every action grouped into chunks, with
/// inferred labels attached and every data-pool cell decoded back to its
/// textual form. With `show_addr` each line carries its address; with
/// `junk` raw bytes are emitted so the text re-assembles byte-for-byte.
#[verifier::rlimit(100)]
pub fn disassemble(
    s: Stcm2,
    mnemonics: &Vec<(Vec<char>, u32)>,
    enc: Encoding,
    show_addr: bool,
    junk: bool,
) -> (r: Result<Vec<char>, Error>)
    ensures
        match r {
            Ok(_) => targets_ok(s.actions@),
            Err(e) => {
                &&& (e == Error::UnknownExport || e == Error::Syntax(0) || e == Error::BadCell
                    || e == Error::BadParameter)
                &&& (e == Error::UnknownExport ==> !targets_ok(s.actions@))
                &&& (e == Error::Syntax(0) ==> exists|i: int|
                    0 <= i < s.tag@.len() && s.tag@[i] >= 128)
                &&& (e == Error::BadCell ==> exists|k: int|
                    0 <= k < s.actions@.len() && !pool_ok((#[trigger] s.actions@[k]).1.data@))
                &&& (e == Error::BadParameter ==> exists|k: int, j: int|
                    #![trigger s.actions@[k].1.params@[j]]
                    {
                        &&& 0 <= k < s.actions@.len()
                        &&& 0 <= j < s.actions@[k].1.params@.len()
                        &&& s.actions@[k].1.params@[j] is DataPointer
                        &&& !is_pool_ptr(
                            s.actions@[k].1.data@,
                            s.actions@[k].1.params@[j]->DataPointer_0,
                        )
                    })
            },
        },
{
    let ghost sacts = s.actions@;
    let ghost stag = s.tag@;
    let tag = s.tag;
    let global_data = s.global_data;
    let acts = match attach_autolabels(s.actions) {
        Ok(a) => a,
        Err(e) => {
            return Err(e);
        },
    };
    proof {
        assert(targets_ok(sacts));
        assert(labeled_from(sacts, acts@));
    }

    let mut out: Vec<char> = Vec::new();
    // `.tag "NAME"` with the zero padding stripped
    let mut tag_end: usize = tag.len();
    while tag_end > 0 && tag[tag_end - 1] == 0
        invariant
            tag_end <= tag@.len(),
            tag@ == stag,
            stag == s.tag@,
        decreases tag_end,
    {
        tag_end = tag_end - 1;
    }
    out.push('.');
    out.push('t');
    out.push('a');
    out.push('g');
    out.push(' ');
    out.push('"');
    let mut ti: usize = 0;
    while ti < tag_end
        invariant
            ti <= tag_end,
            tag_end <= tag@.len(),
            tag@ == stag,
            stag == s.tag@,
        decreases tag_end - ti,
    {
        let b = tag[ti];
        if b < 128 {
            out.push(b as char);
        } else {
            proof {
                assert(stag[ti as int] >= 128);
            }
            return Err(Error::Syntax(0));
        }
        ti = ti + 1;
    }
    out.push('"');
    out.push('\n');

    // `.global_data B64`
    out.push('.');
    out.push('g');
    out.push('l');
    out.push('o');
    out.push('b');
    out.push('a');
    out.push('l');
    out.push('_');
    out.push('d');
    out.push('a');
    out.push('t');
    out.push('a');
    out.push(' ');
    let gd64 = crate::text::b64_encode(&global_data);
    push_str_chars(&mut out, gd64.as_str());
    out.push('\n');
    out.push('.');
    out.push('c');
    out.push('o');
    out.push('d');
    out.push('e');
    out.push('_');
    out.push('s');
    out.push('t');
    out.push('a');
    out.push('r');
    out.push('t');
    out.push('\n');

    // the widest label, for the aligned left margin
    let mut maxlabel: usize = 14;
    let mut mi: usize = 0;
    while mi < acts.len()
        invariant
            mi <= acts@.len(),
        decreases acts@.len() - mi,
    {
        match action_label(&acts[mi].1, junk) {
            Some(l) => {
                if l.len() > maxlabel {
                    maxlabel = l.len();
                }
            },
            None => (),
        }
        mi = mi + 1;
    }

    let chunks = crate::chunk::chunk_actions(&acts);
    let mut ci: usize = 0;
    while ci < chunks.len()
        invariant
            ci <= chunks@.len(),
            crate::chunk::is_partition(acts@, chunks@),
            targets_ok(sacts),
            labeled_from(sacts, acts@),
            sacts == s.actions@,
        decreases chunks@.len() - ci,
    {
        out.push('\n');
        let (lo, hi) = chunks[ci];
        proof {
            assert(chunks@[ci as int].0 < chunks@[ci as int].1 <= acts@.len());
        }
        let mut k: usize = lo;
        while k < hi
            invariant
                lo <= k,
                k <= hi <= acts@.len(),
                targets_ok(sacts),
                labeled_from(sacts, acts@),
                sacts == s.actions@,
            decreases hi - k,
        {
            let addr = acts[k].0;
            if show_addr {
                // six hex digits, zero padded
                let mut hx: Vec<char> = Vec::new();
                crate::escape::push_hex_u32(&mut hx, addr);
                let mut pad: usize = 0;
                if hx.len() < 6 {
                    pad = 6 - hx.len();
                }
                let mut z: usize = 0;
                while z < pad
                    invariant
                        z <= pad,
                    decreases pad - z,
                {
                    out.push('0');
                    z = z + 1;
                }
                let mut hxi: usize = 0;
                while hxi < hx.len()
                    invariant
                        hxi <= hx@.len(),
                    decreases hx@.len() - hxi,
                {
                    out.push(hx[hxi]);
                    hxi = hxi + 1;
                }
                out.push(' ');
            }
            match action_label(&acts[k].1, junk) {
                Some(l) => {
                    let esc = crate::escape::label_to_string(&l);
                    let mut pad: usize = 0;
                    if esc.len() < maxlabel {
                        pad = maxlabel - esc.len();
                    }
                    let mut z: usize = 0;
                    while z < pad
                        invariant
                            z <= pad,
                        decreases pad - z,
                    {
                        out.push(' ');
                        z = z + 1;
                    }
                    let mut ei: usize = 0;
                    while ei < esc.len()
                        invariant
                            ei <= esc@.len(),
                        decreases esc@.len() - ei,
                    {
                        out.push(esc[ei]);
                        ei = ei + 1;
                    }
                    out.push(':');
                    out.push(' ');
                },
                None => {
                    let mut z: usize = 0;
                    while z < maxlabel
                        invariant
                            z <= maxlabel,
                        decreases maxlabel - z,
                    {
                        out.push(' ');
                        z = z + 1;
                    }
                    out.push(' ');
                    out.push(' ');
                },
            }

            let a = &acts[k].1;
            if a.call {
                out.push('c');
                out.push('a');
                out.push('l');
                out.push('l');
                out.push(' ');
                proof {
                    assert(sacts[k as int].1.call);
                    assert(sacts[k as int].1.opcode == a.opcode);
                }
                match crate::stcm2::find_action(&acts, a.opcode) {
                    Some(t) => {
                        proof {
                            assert(acts@[t as int].0 == sacts[t as int].0);
                            assert(is_fn_target(sacts, sacts[t as int].0));
                            assert(autolabel_of(sacts, sacts[t as int]) is Some);
                            assert(opt_bytes(acts@[t as int].1.export) is Some);
                            assert(acts@[t as int].1.export is Some);
                            assert(crate::stcm2::label_spec(acts@[t as int].1, junk) is Some);
                        }
                        match action_label(&acts[t].1, junk) {
                            Some(l) => push_label_chars(&mut out, &l),
                            None => {
                                proof {
                                    assert(false);
                                }
                                return Err(Error::UnknownExport);
                            },
                        }
                    },
                    None => {
                        proof {
                            let i = choose|i: int|
                                0 <= i < sacts.len() && (#[trigger] sacts[i]).0 == sacts[
                                    k as int
                                ].1.opcode;
                            assert(acts@[i].0 == a.opcode);
                            assert(false);
                        }
                        return Err(Error::UnknownExport);
                    },
                }
            } else {
                match mnemonic_by_opcode(mnemonics, a.opcode) {
                    Some(name) => {
                        let mut ni: usize = 0;
                        while ni < name.len()
                            invariant
                                ni <= name@.len(),
                            decreases name@.len() - ni,
                        {
                            out.push(name[ni]);
                            ni = ni + 1;
                        }
                    },
                    None => {
                        out.push('r');
                        out.push('a');
                        out.push('w');
                        out.push(' ');
                        crate::escape::push_hex_u32(&mut out, a.opcode);
                    },
                }
            }

            // the data pool: raw junk prefix, then the encoded cells
            let (junk_len, cells) = match scan_pool(&a.data) {
                Ok(x) => x,
                Err(e) => {
                    proof {
                        assert(a.data@ == sacts[k as int].1.data@);
                        assert(!pool_ok(sacts[k as int].1.data@));
                    }
                    return Err(e);
                },
            };

            let mut pi: usize = 0;
            while pi < a.params.len()
                invariant
                    pi <= a.params@.len(),
                    k < acts@.len(),
                    a == acts@[k as int].1,
                    targets_ok(sacts),
                    labeled_from(sacts, acts@),
                    sacts == s.actions@,
                    pool_ok(a.data@),
                    cells_complete(a.data@, cells@),
                decreases a.params@.len() - pi,
            {
                match a.params[pi] {
                    Parameter::Value(v) => {
                        out.push(',');
                        out.push(' ');
                        crate::escape::push_hex_u32(&mut out, v);
                    },
                    Parameter::ActionRef(ta) => {
                        out.push(',');
                        out.push(' ');
                        out.push('[');
                        proof {
                            assert(sacts[k as int].1.params@[pi as int]
                                == Parameter::ActionRef(ta));
                            assert(is_ref_target(sacts, ta));
                        }
                        match crate::stcm2::find_action(&acts, ta) {
                            Some(t) => {
                                proof {
                                    assert(acts@[t as int].0 == sacts[t as int].0);
                                    assert(autolabel_of(sacts, sacts[t as int]) is Some);
                                    assert(acts@[t as int].1.export is Some);
                                    assert(crate::stcm2::label_spec(
                                        acts@[t as int].1,
                                        junk,
                                    ) is Some);
                                }
                                match action_label(&acts[t].1, junk) {
                                    Some(l) => push_label_chars(&mut out, &l),
                                    None => {
                                        proof {
                                            assert(false);
                                        }
                                        return Err(Error::UnknownExport);
                                    },
                                }
                            },
                            None => {
                                proof {
                                    let i = choose|i: int|
                                        0 <= i < sacts.len() && (#[trigger] sacts[i]).0 == ta;
                                    assert(acts@[i].0 == ta);
                                    assert(false);
                                }
                                return Err(Error::UnknownExport);
                            },
                        }
                        out.push(']');
                    },
                    Parameter::GlobalDataPointer(off) => {
                        out.push(',');
                        out.push(' ');
                        out.push('[');
                        out.push('g');
                        out.push('l');
                        out.push('o');
                        out.push('b');
                        out.push('a');
                        out.push('l');
                        out.push('_');
                        out.push('d');
                        out.push('a');
                        out.push('t');
                        out.push('a');
                        out.push('+');
                        crate::escape::push_dec_u32(&mut out, off);
                        out.push(']');
                    },
                    Parameter::DataPointer(off) => {
                        match cell_at(&cells, off) {
                            Some(cidx) => {
                                match &cells[cidx].1 {
                                    StringType::Type0U32(n) => push_int_cell(&mut out, false, *n),
                                    StringType::Type1U32(n) => push_int_cell(&mut out, true, *n),
                                    StringType::Text(bytes) => {
                                        out.push(',');
                                        out.push(' ');
                                        out.push('"');
                                        let units = crate::text::decode_marked(enc, bytes);
                                        push_text_units(&mut out, &units, enc);
                                        out.push('"');
                                    },
                                }
                            },
                            None => {
                                proof {
                                    assert(sacts[k as int].1.params@[pi as int]
                                        == Parameter::DataPointer(off));
                                    assert(!is_pool_ptr(sacts[k as int].1.data@, off));
                                }
                                return Err(Error::BadParameter);
                            },
                        }
                    },
                }
                pi = pi + 1;
            }

            if junk && junk_len > 0 {
                out.push(' ');
                out.push('!');
                out.push(' ');
                let jb = crate::words::copy_range(&a.data, 0, junk_len);
                let j64 = crate::text::b64_encode(&jb);
                push_str_chars(&mut out, j64.as_str());
            }
            out.push('\n');
            k = k + 1;
        }
        ci = ci + 1;
    }
    Ok(out)
}

} // verus!
