//! The assembler's back half: the symbol-resolution pass that replaces
//! placeholder references by action indices, the layout engine that renames
//! index-space references into byte offsets, and the serializer that writes
//! the final byte buffer.
use vstd::prelude::*;

use crate::pend::{pend_entries, pend_get_index};
use crate::stcm2::{
    action_len_spec, code_start_magic, collection_link_magic, export_data_magic,
    global_data_magic, stcm2_magic, Action, Parameter, Stcm2, ACTION_REF_MARKER,
    GLOBAL_DATA_OFFSET, STCM2_TAG_LENGTH,
};
use crate::words::{u32_at, u32_le_bytes, zeros};
use crate::Error;

verus! {

/// An unresolved reference embeds the bitwise complement of its table
/// index: such a placeholder can never collide with a resolved index or a
/// byte offset in any file the format can hold.
pub open spec fn sentinel(idx: u32) -> u32 {
    !idx
}

/// The sentinel non-collision law: for any table index and any resolved
/// value below `2^31` (indices and byte offsets of any file under 2 GiB),
/// the complement of the index never equals the value.
pub proof fn lemma_sentinel_no_collision(idx: u32, resolved: u32)
    requires
        idx < 0x80000000,
        resolved < 0x80000000,
    ensures
        sentinel(idx) != resolved,
{
    assert(idx < 0x80000000 && resolved < 0x80000000 ==> !idx != resolved) by (bit_vector);
}

/// What resolution does to one placeholder value: un-complement it, look it
/// up, and take the entry's resolved index; `None` when the entry is
/// missing or still unresolved.
pub open spec fn resolve_ref(v: u32, entries: Seq<(Seq<u8>, Option<u32>)>) -> Option<u32> {
    let idx = sentinel(v) as int;
    if idx < entries.len() {
        entries[idx].1
    } else {
        None
    }
}

/// What resolution does to one operand.
pub open spec fn resolve_param(p: Parameter, entries: Seq<(Seq<u8>, Option<u32>)>) -> Option<
    Parameter,
> {
    match p {
        Parameter::ActionRef(v) => match resolve_ref(v, entries) {
            Some(a) => Some(Parameter::ActionRef(a)),
            None => None,
        },
        _ => Some(p),
    }
}

/// What resolution does to one action: the call target and every
/// `ActionRef` operand still carrying a placeholder are replaced by the
/// table's resolved indices.
pub open spec fn resolve_act_ok(a: Action, entries: Seq<(Seq<u8>, Option<u32>)>) -> bool {
    &&& (a.call ==> resolve_ref(a.opcode, entries) is Some)
    &&& forall|j: int|
        0 <= j < a.params.len() ==> resolve_param(#[trigger] a.params@[j], entries) is Some
}

/// The optional export name, as bytes.
pub open spec fn opt_bytes(o: Option<Vec<u8>>) -> Option<Seq<u8>> {
    match o {
        Some(v) => Some(v@),
        None => None,
    }
}

pub open spec fn resolved_act(a: Action, b: Action, entries: Seq<(Seq<u8>, Option<u32>)>) -> bool {
    &&& opt_bytes(b.export) == opt_bytes(a.export)
    &&& b.call == a.call
    &&& b.opcode == if a.call {
        resolve_ref(a.opcode, entries).unwrap()
    } else {
        a.opcode
    }
    &&& b.params@.len() == a.params@.len()
    &&& forall|j: int|
        0 <= j < a.params@.len() ==> Some(#[trigger] b.params@[j]) == resolve_param(
            a.params@[j],
            entries,
        )
    &&& b.data@ == a.data@
}

/// The first `dst.len()` operands of `src` resolved into `dst`.
pub open spec fn params_resolved(
    src: Seq<Parameter>,
    dst: Seq<Parameter>,
    entries: Seq<(Seq<u8>, Option<u32>)>,
) -> bool {
    &&& dst.len() <= src.len()
    &&& forall|t: int|
        0 <= t < dst.len() ==> resolve_param(#[trigger] src[t], entries) is Some && Some(
            dst[t],
        ) == resolve_param(src[t], entries)
}

pub proof fn lemma_params_resolved_push(
    src: Seq<Parameter>,
    dst: Seq<Parameter>,
    entries: Seq<(Seq<u8>, Option<u32>)>,
    newp: Parameter,
)
    requires
        params_resolved(src, dst, entries),
        dst.len() < src.len(),
        Some(newp) == resolve_param(src[dst.len() as int], entries),
    ensures
        params_resolved(src, dst.push(newp), entries),
{
    let d2 = dst.push(newp);
    assert forall|t: int|
        0 <= t < d2.len() implies resolve_param(#[trigger] src[t], entries) is Some && Some(
        d2[t],
    ) == resolve_param(src[t], entries) by {
        if t < dst.len() {
            assert(d2[t] == dst[t]);
        } else {
            assert(d2[t] == newp);
        }
    }
}

/// The first `dst.len()` operands of `src` relocated into `dst`.
pub open spec fn params_reloc(src: Seq<Parameter>, dst: Seq<Parameter>, acts: Seq<Action>) -> bool {
    &&& dst.len() <= src.len()
    &&& forall|t: int|
        0 <= t < dst.len() ==> reloc_param(#[trigger] src[t], acts) is Some && Some(dst[t])
            == reloc_param(src[t], acts)
}

pub proof fn lemma_params_reloc_push(
    src: Seq<Parameter>,
    dst: Seq<Parameter>,
    acts: Seq<Action>,
    newp: Parameter,
)
    requires
        params_reloc(src, dst, acts),
        dst.len() < src.len(),
        Some(newp) == reloc_param(src[dst.len() as int], acts),
    ensures
        params_reloc(src, dst.push(newp), acts),
{
    let d2 = dst.push(newp);
    assert forall|t: int|
        0 <= t < d2.len() implies reloc_param(#[trigger] src[t], acts) is Some && Some(d2[t])
            == reloc_param(src[t], acts) by {
        if t < dst.len() {
            assert(d2[t] == dst[t]);
        } else {
            assert(d2[t] == newp);
        }
    }
}

/// The resolution pass: walk every action and substitute each placeholder
/// by its table entry's resolved action index. Fails with `UnresolvedLabel`
/// exactly when some referenced name was never defined.
pub fn resolve_actions(
    actions: Vec<Action>,
    table: &indexmap::IndexMap<Vec<u8>, Option<u32>>,
) -> (r: Result<Vec<Action>, Error>)
    ensures
        match r {
            Ok(out) => {
                &&& out@.len() == actions@.len()
                &&& forall|i: int|
                    0 <= i < actions@.len() ==> resolve_act_ok(
                        #[trigger] actions@[i],
                        pend_entries(*table),
                    ) && resolved_act(actions@[i], out@[i], pend_entries(*table))
            },
            Err(e) => e == Error::UnresolvedLabel && exists|i: int|
                0 <= i < actions@.len() && !resolve_act_ok(
                    #[trigger] actions@[i],
                    pend_entries(*table),
                ),
        },
{
    let ghost entries = pend_entries(*table);
    let mut out: Vec<Action> = Vec::new();
    let mut i: usize = 0;
    while i < actions.len()
        invariant
            entries == pend_entries(*table),
            i <= actions@.len(),
            out@.len() == i,
            forall|t: int|
                0 <= t < i ==> resolve_act_ok(#[trigger] actions@[t], entries) && resolved_act(
                    actions@[t],
                    out@[t],
                    entries,
                ),
        decreases actions@.len() - i,
    {
        let a = &actions[i];
        let opcode: u32;
        if a.call {
            match lookup_ref(table, a.opcode) {
                Some(v) => {
                    opcode = v;
                },
                None => {
                    proof {
                        assert(!resolve_act_ok(actions@[i as int], entries));
                    }
                    return Err(Error::UnresolvedLabel);
                },
            }
        } else {
            opcode = a.opcode;
        }
        let mut params: Vec<Parameter> = Vec::new();
        let mut j: usize = 0;
        while j < a.params.len()
            invariant
                entries == pend_entries(*table),
                i < actions@.len(),
                a == actions@[i as int],
                a.call ==> resolve_ref(a.opcode, entries) is Some,
                opcode == if a.call {
                    resolve_ref(a.opcode, entries).unwrap()
                } else {
                    a.opcode
                },
                j <= a.params@.len(),
                params@.len() == j,
                params_resolved(a.params@, params@, entries),
            decreases a.params@.len() - j,
        {
            let ghost prevp = params@;
            let p = a.params[j];
            match p {
                Parameter::ActionRef(v) => {
                    match lookup_ref(table, v) {
                        Some(t) => params.push(Parameter::ActionRef(t)),
                        None => {
                            proof {
                                assert(resolve_param(a.params@[j as int], entries) is None);
                                assert(!resolve_act_ok(actions@[i as int], entries));
                            }
                            return Err(Error::UnresolvedLabel);
                        },
                    }
                },
                _ => params.push(p),
            }
            proof {
                assert(Some(params@[j as int]) == resolve_param(a.params@[j as int], entries));
                lemma_params_resolved_push(
                    a.params@,
                    prevp,
                    entries,
                    params@[j as int],
                );
                assert(params@ == prevp.push(params@[j as int]));
            }
            j = j + 1;
        }
        let b = Action {
            export: copy_export(&a.export),
            call: a.call,
            opcode,
            params,
            data: copy_bytes(&a.data),
        };
        proof {
            assert(params_resolved(a.params@, b.params@, entries));
            assert forall|t: int|
                0 <= t < a.params@.len() implies resolve_param(
                #[trigger] a.params@[t],
                entries,
            ) is Some by {}
            assert(resolve_act_ok(actions@[i as int], entries));
            assert(resolved_act(actions@[i as int], b, entries));
        }
        out.push(b);
        i = i + 1;
    }
    Ok(out)
}

/// Copy a byte vector.
fn copy_bytes(v: &Vec<u8>) -> (r: Vec<u8>)
    ensures
        r@ == v@,
{
    crate::words::copy_range(v, 0, v.len())
}

/// Copy an optional export name.
fn copy_export(o: &Option<Vec<u8>>) -> (r: Option<Vec<u8>>)
    ensures
        opt_bytes(r) == opt_bytes(*o),
{
    match o {
        None => None,
        Some(v) => Some(copy_bytes(v)),
    }
}

/// Look a placeholder up in the pending-reference table.
fn lookup_ref(table: &indexmap::IndexMap<Vec<u8>, Option<u32>>, v: u32) -> (r: Option<u32>)
    ensures
        r == resolve_ref(v, pend_entries(*table)),
{
    let idx = (!v) as usize;
    match pend_get_index(table, idx) {
        Some(e) => match e.1 {
            Some(a) => Some(*a),
            None => None,
        },
        None => None,
    }
}

/// The byte offset of the `i`-th action of an index-space stream.
pub open spec fn off_of(acts: Seq<Action>, i: int) -> int
    decreases i,
{
    if i <= 0 {
        0
    } else {
        off_of(acts, i - 1) + action_len_spec(acts[i - 1])
    }
}

/// What layout does to one operand: an `ActionRef` still holding an action
/// index becomes the action's byte offset from the code start; everything
/// else is untouched.
pub open spec fn reloc_param(p: Parameter, acts: Seq<Action>) -> Option<Parameter> {
    match p {
        Parameter::ActionRef(v) => if v < acts.len() && off_of(acts, v as int) <= u32::MAX {
            Some(Parameter::ActionRef(off_of(acts, v as int) as u32))
        } else {
            None
        },
        _ => Some(p),
    }
}

pub open spec fn reloc_act_ok(acts: Seq<Action>, i: int) -> bool {
    let a = acts[i];
    &&& (a.call ==> a.opcode < acts.len() && off_of(acts, a.opcode as int) <= u32::MAX)
    &&& forall|j: int|
        0 <= j < a.params@.len() ==> reloc_param(#[trigger] a.params@[j], acts) is Some
}

pub open spec fn reloc_acted(acts: Seq<Action>, i: int, r: (u32, Action)) -> bool {
    let a = acts[i];
    &&& r.0 == off_of(acts, i)
    &&& opt_bytes(r.1.export) == opt_bytes(a.export)
    &&& r.1.call == a.call
    &&& r.1.opcode == if a.call {
        off_of(acts, a.opcode as int) as u32
    } else {
        a.opcode
    }
    &&& r.1.params@.len() == a.params@.len()
    &&& forall|j: int|
        0 <= j < a.params@.len() ==> Some(#[trigger] r.1.params@[j]) == reloc_param(
            a.params@[j],
            acts,
        )
    &&& r.1.data@ == a.data@
}

/// The layout engine: compute each action's byte offset by a prefix sum of
/// the record lengths, then rewrite every call target and `ActionRef`
/// operand from index space into byte-offset space.
#[verifier::spinoff_prover]
#[verifier::rlimit(100)]
pub fn layout_actions(actions: Vec<Action>) -> (r: Result<Vec<(u32, Action)>, Error>)
    requires
        forall|i: int| 0 <= i < actions@.len() ==> crate::stcm2::wf_action(#[trigger] actions@[i]),
    ensures
        match r {
            Ok(out) => {
                &&& off_of(actions@, actions@.len() as int) <= u32::MAX
                &&& out@.len() == actions@.len()
                &&& forall|i: int|
                    0 <= i < actions@.len() ==> reloc_act_ok(actions@, i) && reloc_acted(
                        actions@,
                        i,
                        #[trigger] out@[i],
                    )
            },
            Err(e) => e == Error::Overflow && off_of(actions@, actions@.len() as int) > u32::MAX
                || e == Error::UnresolvedLabel && (exists|i: int|
                0 <= i < actions@.len() && !reloc_act_ok(actions@, i)),
        },
{
    // first pass: the rename table of byte offsets
    let mut renames: Vec<u32> = Vec::new();
    let mut off: u64 = 0;
    let mut i: usize = 0;
    while i < actions.len()
        invariant
            i <= actions@.len(),
            renames@.len() == i,
            off == off_of(actions@, i as int),
            off <= u32::MAX,
            forall|t: int| 0 <= t < i ==> #[trigger] renames@[t] == off_of(actions@, t),
            forall|t: int|
                0 <= t < actions@.len() ==> crate::stcm2::wf_action(#[trigger] actions@[t]),
        decreases actions@.len() - i,
    {
        renames.push(off as u32);
        let a = &actions[i];
        let alen = 16u64 + 12 * (a.params.len() as u64) + (a.data.len() as u64);
        proof {
            assert(alen == action_len_spec(actions@[i as int]));
        }
        if off > u32::MAX as u64 - alen {
            proof {
                lemma_off_monotone(actions@, i + 1, actions@.len() as int);
            }
            return Err(Error::Overflow);
        }
        off = off + alen;
        i = i + 1;
    }

    // second pass: rewrite references through the rename table
    let mut out: Vec<(u32, Action)> = Vec::new();
    let mut i2: usize = 0;
    while i2 < actions.len()
        invariant
            i2 <= actions@.len(),
            out@.len() == i2,
            renames@.len() == actions@.len(),
            forall|t: int| 0 <= t < actions@.len() ==> #[trigger] renames@[t] == off_of(actions@, t),
            off_of(actions@, actions@.len() as int) <= u32::MAX,
            forall|t: int|
                0 <= t < i2 ==> (#[trigger] reloc_act_ok(actions@, t)) && reloc_acted(
                    actions@,
                    t,
                    out@[t],
                ),
        decreases actions@.len() - i2,
    {
        let a = &actions[i2];
        let opcode: u32;
        if a.call {
            if (a.opcode as usize) >= renames.len() {
                proof {
                    assert(!reloc_act_ok(actions@, i2 as int));
                }
                return Err(Error::UnresolvedLabel);
            }
            opcode = renames[a.opcode as usize];
            proof {
                lemma_off_monotone(actions@, a.opcode as int, actions@.len() as int);
            }
        } else {
            opcode = a.opcode;
        }
        let mut params: Vec<Parameter> = Vec::new();
        let mut j: usize = 0;
        while j < a.params.len()
            invariant
                i2 < actions@.len(),
                a == actions@[i2 as int],
                a.call ==> a.opcode < actions@.len() && off_of(actions@, a.opcode as int)
                    <= u32::MAX,
                opcode == if a.call {
                    off_of(actions@, a.opcode as int) as u32
                } else {
                    a.opcode
                },
                j <= a.params@.len(),
                params@.len() == j,
                renames@.len() == actions@.len(),
                forall|t: int|
                    0 <= t < actions@.len() ==> #[trigger] renames@[t] == off_of(actions@, t),
                off_of(actions@, actions@.len() as int) <= u32::MAX,
                params_reloc(a.params@, params@, actions@),
            decreases a.params@.len() - j,
        {
            let ghost prevp = params@;
            let p = a.params[j];
            match p {
                Parameter::ActionRef(v) => {
                    if (v as usize) >= renames.len() {
                        proof {
                            assert(reloc_param(a.params@[j as int], actions@) is None);
                            assert(!reloc_act_ok(actions@, i2 as int));
                        }
                        return Err(Error::UnresolvedLabel);
                    }
                    proof {
                        lemma_off_monotone(actions@, v as int, actions@.len() as int);
                    }
                    params.push(Parameter::ActionRef(renames[v as usize]));
                },
                _ => params.push(p),
            }
            proof {
                assert(Some(params@[j as int]) == reloc_param(a.params@[j as int], actions@));
                lemma_params_reloc_push(a.params@, prevp, actions@, params@[j as int]);
                assert(params@ == prevp.push(params@[j as int]));
            }
            j = j + 1;
        }
        let b = Action {
            export: copy_export(&a.export),
            call: a.call,
            opcode,
            params,
            data: copy_bytes(&a.data),
        };
        let pos = renames[i2];
        proof {
            assert(params_reloc(a.params@, b.params@, actions@));
            assert forall|t: int|
                0 <= t < a.params@.len() implies reloc_param(
                #[trigger] a.params@[t],
                actions@,
            ) is Some by {}
            assert(reloc_act_ok(actions@, i2 as int));
            assert(reloc_acted(actions@, i2 as int, (pos, b)));
        }
        let ghost preout = out@;
        let ghost newentry = (pos, b);
        out.push((pos, b));
        proof {
            assert(out@ == preout.push(newentry));
            assert forall|t: int|
                0 <= t < i2 + 1 implies (#[trigger] reloc_act_ok(actions@, t)) && reloc_acted(
                actions@,
                t,
                out@[t],
            ) by {
                if t < i2 {
                    assert(reloc_act_ok(actions@, t));
                    assert(reloc_acted(actions@, t, preout[t]));
                    assert(out@[t] == preout[t]);
                } else {
                    assert(out@[t] == newentry);
                    assert(reloc_acted(actions@, t, newentry));
                }
            }
        }
        i2 = i2 + 1;
    }
    Ok(out)
}

/// Offsets grow along the stream.
pub proof fn lemma_off_monotone(acts: Seq<Action>, i: int, j: int)
    requires
        0 <= i <= j <= acts.len(),
    ensures
        off_of(acts, i) <= off_of(acts, j),
    decreases j - i,
{
    if i < j {
        lemma_off_monotone(acts, i, j - 1);
    }
}

} // verus!

verus! {

/// The twelve bytes one operand serializes to, given the file's filler
/// word, the absolute code base and the owning action's absolute data base.
pub open spec fn ser_param(p: Parameter, filler: u32, cb: int, data_addr: int) -> Seq<u8> {
    match p {
        Parameter::Value(v) => u32_le_bytes(v) + u32_le_bytes(filler) + u32_le_bytes(filler),
        Parameter::GlobalDataPointer(off) => u32_le_bytes((GLOBAL_DATA_OFFSET + off) as u32)
            + u32_le_bytes(filler) + u32_le_bytes(filler),
        Parameter::DataPointer(off) => u32_le_bytes((data_addr + off) as u32) + u32_le_bytes(
            filler,
        ) + u32_le_bytes(filler),
        Parameter::ActionRef(ptr) => u32_le_bytes(ACTION_REF_MARKER) + u32_le_bytes(
            (cb + ptr) as u32,
        ) + u32_le_bytes(filler),
    }
}

pub open spec fn ser_params(ps: Seq<Parameter>, filler: u32, cb: int, data_addr: int) -> Seq<u8>
    decreases ps.len(),
{
    if ps.len() == 0 {
        seq![]
    } else {
        ser_params(ps.drop_last(), filler, cb, data_addr) + ser_param(
            ps.last(),
            filler,
            cb,
            data_addr,
        )
    }
}

/// The bytes one whole record serializes to at code-relative offset `pos`.
pub open spec fn ser_action(a: Action, filler: u32, cb: int, pos: int) -> Seq<u8> {
    let data_addr = cb + pos + 16 + 12 * a.params.len();
    u32_le_bytes(
        if a.call {
            1u32
        } else {
            0u32
        },
    ) + u32_le_bytes(
        if a.call {
            (cb + a.opcode) as u32
        } else {
            a.opcode
        },
    ) + u32_le_bytes(a.params.len() as u32) + u32_le_bytes(action_len_spec(a) as u32) + ser_params(
        a.params@,
        filler,
        cb,
        data_addr,
    ) + a.data@
}

pub open spec fn ser_stream(acts: Seq<(u32, Action)>, filler: u32, cb: int) -> Seq<u8>
    decreases acts.len(),
{
    if acts.len() == 0 {
        seq![]
    } else {
        ser_stream(acts.drop_last(), filler, cb) + ser_action(
            acts.last().1,
            filler,
            cb,
            acts.last().0 as int,
        )
    }
}

/// The export table entries, one per exported action, in stream order,
/// each carrying the name bytes and the absolute address.
pub open spec fn exports_list(acts: Seq<(u32, Action)>, cb: int) -> Seq<(Seq<u8>, int)>
    decreases acts.len(),
{
    if acts.len() == 0 {
        seq![]
    } else {
        exports_list(acts.drop_last(), cb) + match acts.last().1.export {
            Some(n) => seq![(n@, cb + acts.last().0)],
            None => seq![],
        }
    }
}

pub open spec fn ser_export(name: Seq<u8>, addr: int) -> Seq<u8> {
    u32_le_bytes(0) + name + zeros(32 - name.len()) + u32_le_bytes(addr as u32)
}

pub open spec fn ser_exports(exps: Seq<(Seq<u8>, int)>) -> Seq<u8>
    decreases exps.len(),
{
    if exps.len() == 0 {
        seq![]
    } else {
        ser_exports(exps.drop_last()) + ser_export(exps.last().0, exps.last().1)
    }
}

/// Where the code section ends, relative to the code base.
pub open spec fn code_end(acts: Seq<(u32, Action)>) -> int {
    if acts.len() == 0 {
        0
    } else {
        acts.last().0 + action_len_spec(acts.last().1)
    }
}

/// The absolute address of the export table.
pub open spec fn export_addr_of(acts: Seq<(u32, Action)>, glen: int) -> int {
    code_base_of(glen) + code_end(acts) + 12
}

pub open spec fn code_base_of(glen: int) -> int {
    GLOBAL_DATA_OFFSET + glen + 12
}

/// The absolute address of the collection-link payload.
pub open spec fn coll_addr_of(acts: Seq<(u32, Action)>, glen: int) -> int {
    export_addr_of(acts, glen) + 40 * exports_list(acts, code_base_of(glen)).len() + 16
}

/// The total encoded file length.
pub open spec fn total_len_of(acts: Seq<(u32, Action)>, glen: int) -> int {
    coll_addr_of(acts, glen) + 64
}

/// The whole encoded file: magic, tag, the metadata block, the global pool,
/// the action stream, the export table, and the collection-link trailer
/// whose final length word equals the file's own length.
pub open spec fn render_file(
    tag: Seq<u8>,
    gd: Seq<u8>,
    acts: Seq<(u32, Action)>,
    filler: u32,
) -> Seq<u8> {
    let cb = code_base_of(gd.len() as int);
    let exps = exports_list(acts, cb);
    stcm2_magic() + tag + zeros(STCM2_TAG_LENGTH - tag.len()) + u32_le_bytes(
        export_addr_of(acts, gd.len() as int) as u32,
    ) + u32_le_bytes(exps.len() as u32) + u32_le_bytes(2) + u32_le_bytes(
        coll_addr_of(acts, gd.len() as int) as u32,
    ) + zeros(32) + global_data_magic() + gd + code_start_magic() + ser_stream(acts, filler, cb)
        + export_data_magic() + ser_exports(exps) + collection_link_magic() + u32_le_bytes(0)
        + u32_le_bytes(total_len_of(acts, gd.len() as int) as u32) + zeros(56)
}

/// Every address and offset the serialization writes fits the fixed-width
/// file representation.
pub open spec fn param_fits(p: Parameter, cb: int, data_addr: int) -> bool {
    match p {
        Parameter::Value(v) => true,
        Parameter::GlobalDataPointer(off) => GLOBAL_DATA_OFFSET + off <= u32::MAX,
        Parameter::DataPointer(off) => data_addr + off <= u32::MAX,
        Parameter::ActionRef(ptr) => cb + ptr <= u32::MAX,
    }
}

pub open spec fn action_fits(a: Action, cb: int, pos: int) -> bool {
    let data_addr = cb + pos + 16 + 12 * a.params.len();
    &&& (a.call ==> cb + a.opcode <= u32::MAX)
    &&& data_addr <= u32::MAX
    &&& forall|j: int| 0 <= j < a.params@.len() ==> param_fits(#[trigger] a.params@[j], cb, data_addr)
}

pub open spec fn ser_fits(acts: Seq<(u32, Action)>, glen: int) -> bool {
    &&& total_len_of(acts, glen) <= u32::MAX
    &&& forall|i: int|
        0 <= i < acts.len() ==> action_fits((#[trigger] acts[i]).1, code_base_of(glen), acts[i].0 as int)
}

} // verus!

verus! {

/// Unfolding lemmas for the stream and export specs, one element at a time.
pub proof fn lemma_ser_stream_take(acts: Seq<(u32, Action)>, filler: u32, cb: int, i: int)
    requires
        0 <= i < acts.len(),
    ensures
        ser_stream(acts.take(i + 1), filler, cb) == ser_stream(acts.take(i), filler, cb)
            + ser_action(acts[i].1, filler, cb, acts[i].0 as int),
{
    assert(acts.take(i + 1).drop_last() =~= acts.take(i));
    assert(acts.take(i + 1).last() == acts[i]);
}

pub proof fn lemma_exports_list_take(acts: Seq<(u32, Action)>, cb: int, i: int)
    requires
        0 <= i < acts.len(),
    ensures
        exports_list(acts.take(i + 1), cb) == exports_list(acts.take(i), cb) + match acts[i
        ].1.export {
            Some(n) => seq![(n@, cb + acts[i].0)],
            None => Seq::<(Seq<u8>, int)>::empty(),
        },
{
    assert(acts.take(i + 1).drop_last() =~= acts.take(i));
    assert(acts.take(i + 1).last() == acts[i]);
}

pub proof fn lemma_ser_params_take(ps: Seq<Parameter>, filler: u32, cb: int, da: int, j: int)
    requires
        0 <= j < ps.len(),
    ensures
        ser_params(ps.take(j + 1), filler, cb, da) == ser_params(ps.take(j), filler, cb, da)
            + ser_param(ps[j], filler, cb, da),
{
    assert(ps.take(j + 1).drop_last() =~= ps.take(j));
    assert(ps.take(j + 1).last() == ps[j]);
}

pub proof fn lemma_ser_exports_take(exps: Seq<(Seq<u8>, int)>, k: int)
    requires
        0 <= k < exps.len(),
    ensures
        ser_exports(exps.take(k + 1)) == ser_exports(exps.take(k)) + ser_export(
            exps[k].0,
            exps[k].1,
        ),
{
    assert(exps.take(k + 1).drop_last() =~= exps.take(k));
    assert(exps.take(k + 1).last() == exps[k]);
}

/// The number of export entries among the actions.
fn count_exports(acts: &Vec<(u32, Action)>, ghost_cb: Ghost<int>) -> (n: usize)
    ensures
        n == exports_list(acts@, ghost_cb@).len(),
        n <= acts@.len(),
{
    let ghost cb = ghost_cb@;
    let mut n: usize = 0;
    let mut i: usize = 0;
    proof {
        assert(acts@.take(0) =~= Seq::<(u32, Action)>::empty());
    }
    while i < acts.len()
        invariant
            i <= acts@.len(),
            n == exports_list(acts@.take(i as int), cb).len(),
            n <= i,
        decreases acts@.len() - i,
    {
        proof {
            lemma_exports_list_take(acts@, cb, i as int);
        }
        if acts[i].1.export.is_some() {
            n = n + 1;
        }
        i = i + 1;
    }
    proof {
        assert(acts@.take(acts@.len() as int) =~= acts@);
    }
    n
}

/// Serialize a laid-out action stream into the whole binary file. The
/// offsets in `acts` are code-relative, as the layout engine leaves them.
/// Fails with `Overflow` exactly when some address or the total length
/// cannot fit the format's 32-bit fields.
#[verifier::rlimit(100)]
pub fn to_bytes(
    tag: &Vec<u8>,
    global_data: &Vec<u8>,
    acts: &Vec<(u32, Action)>,
    filler: u32,
) -> (r: Result<Vec<u8>, Error>)
    requires
        tag@.len() <= STCM2_TAG_LENGTH,
        forall|i: int| 0 <= i < acts@.len() ==> crate::stcm2::wf_action((#[trigger] acts@[i]).1),
    ensures
        match r {
            Ok(out) => ser_fits(acts@, global_data@.len() as int) && out@ == render_file(
                tag@,
                global_data@,
                acts@,
                filler,
            ),
            Err(e) => e == Error::Overflow && !ser_fits(acts@, global_data@.len() as int),
        },
{
    let ghost glen = global_data@.len() as int;
    let ghost cb_g = code_base_of(glen);
    proof {
        assert(code_end(acts@) >= 0);
        assert(total_len_of(acts@, glen) >= code_base_of(glen) + 92);
    }
    if global_data.len() > u32::MAX as usize {
        return Err(Error::Overflow);
    }
    let g64 = global_data.len() as u64;
    let cb64: u64 = 92 + g64 + 12;
    let nexp_us = count_exports(acts, Ghost(cb_g));
    proof {
        assert(total_len_of(acts@, glen) >= 40 * exports_list(acts@, cb_g).len());
    }
    if nexp_us > (u32::MAX / 40) as usize {
        return Err(Error::Overflow);
    }
    let nexp = nexp_us as u64;
    let ce64: u64;
    if acts.len() == 0 {
        ce64 = 0;
    } else {
        let last = &acts[acts.len() - 1];
        let alen: u64 = 16 + 12 * (last.1.params.len() as u64) + (last.1.data.len() as u64);
        proof {
            assert(alen == action_len_spec(acts@[acts@.len() - 1].1));
        }
        ce64 = last.0 as u64 + alen;
    }
    proof {
        assert(ce64 == code_end(acts@));
    }
    let ea64: u64 = cb64 + ce64 + 12;
    let ca64: u64 = ea64 + 40 * nexp + 16;
    let total64: u64 = ca64 + 64;
    proof {
        assert(ea64 == export_addr_of(acts@, glen));
        assert(ca64 == coll_addr_of(acts@, glen));
        assert(total64 == total_len_of(acts@, glen));
    }
    if total64 > u32::MAX as u64 {
        return Err(Error::Overflow);
    }

    // every address the stream will hold must fit a u32
    let mut i: usize = 0;
    while i < acts.len()
        invariant
            i <= acts@.len(),
            cb_g == code_base_of(glen),
            glen == global_data@.len(),
            cb64 == cb_g,
            cb64 <= u32::MAX as u64 + 104,
            forall|t: int|
                0 <= t < acts@.len() ==> crate::stcm2::wf_action((#[trigger] acts@[t]).1),
            forall|t: int|
                0 <= t < i ==> action_fits((#[trigger] acts@[t]).1, cb_g, acts@[t].0 as int),
        decreases acts@.len() - i,
    {
        let a = &acts[i].1;
        let pos = acts[i].0;
        let n = a.params.len();
        let da64: u64 = cb64 + pos as u64 + 16 + 12 * (n as u64);
        if da64 > u32::MAX as u64 {
            proof {
                assert(!action_fits(acts@[i as int].1, cb_g, acts@[i as int].0 as int));
                assert(!ser_fits(acts@, glen));
            }
            return Err(Error::Overflow);
        }
        if a.call {
            if cb64 + a.opcode as u64 > u32::MAX as u64 {
                proof {
                    assert(!action_fits(acts@[i as int].1, cb_g, acts@[i as int].0 as int));
                    assert(!ser_fits(acts@, glen));
                }
                return Err(Error::Overflow);
            }
        }
        let mut j: usize = 0;
        while j < a.params.len()
            invariant
                i < acts@.len(),
                a == acts@[i as int].1,
                pos == acts@[i as int].0,
                n == a.params@.len(),
                cb64 == cb_g,
                cb_g == code_base_of(glen),
                glen == global_data@.len(),
                da64 == cb_g + pos + 16 + 12 * a.params@.len(),
                da64 <= u32::MAX,
                j <= a.params@.len(),
                forall|t: int|
                    0 <= t < j ==> param_fits(#[trigger] a.params@[t], cb_g, da64 as int),
            decreases a.params@.len() - j,
        {
            let ok = match a.params[j] {
                Parameter::Value(_) => true,
                Parameter::GlobalDataPointer(off) => off <= u32::MAX
                    - GLOBAL_DATA_OFFSET as u32,
                Parameter::DataPointer(off) => off as u64 <= u32::MAX as u64 - da64,
                Parameter::ActionRef(ptr) => cb64 + ptr as u64 <= u32::MAX as u64,
            };
            if !ok {
                proof {
                    assert(!param_fits(a.params@[j as int], cb_g, da64 as int));
                    assert(!action_fits(acts@[i as int].1, cb_g, acts@[i as int].0 as int));
                    assert(!ser_fits(acts@, glen));
                }
                return Err(Error::Overflow);
            }
            j = j + 1;
        }
        proof {
            assert(action_fits(acts@[i as int].1, cb_g, acts@[i as int].0 as int));
        }
        i = i + 1;
    }
    proof {
        assert(ser_fits(acts@, glen));
    }

    // write the file front to back
    let mut out: Vec<u8> = Vec::new();
    let m1 = crate::stcm2::stcm2_magic_vec();
    crate::words::push_bytes(&mut out, &m1);
    crate::words::push_bytes(&mut out, tag);
    crate::words::push_zeros(&mut out, STCM2_TAG_LENGTH - tag.len());
    crate::words::push_u32_le(&mut out, ea64 as u32);
    crate::words::push_u32_le(&mut out, nexp as u32);
    crate::words::push_u32_le(&mut out, 2);
    crate::words::push_u32_le(&mut out, ca64 as u32);
    crate::words::push_zeros(&mut out, 32);
    let m2 = crate::stcm2::global_data_magic_vec();
    crate::words::push_bytes(&mut out, &m2);
    crate::words::push_bytes(&mut out, global_data);
    let m3 = crate::stcm2::code_start_magic_vec();
    crate::words::push_bytes(&mut out, &m3);

    let ghost exps = exports_list(acts@, cb_g);
    let ghost head = stcm2_magic() + tag@ + zeros(STCM2_TAG_LENGTH - tag@.len()) + u32_le_bytes(
        export_addr_of(acts@, glen) as u32,
    ) + u32_le_bytes(exps.len() as u32) + u32_le_bytes(2) + u32_le_bytes(
        coll_addr_of(acts@, glen) as u32,
    ) + zeros(32) + global_data_magic() + global_data@ + code_start_magic();
    proof {
        assert(out@ =~= head);
        assert(acts@.take(0) =~= Seq::<(u32, Action)>::empty());
    }

    let mut exports: Vec<(Vec<u8>, u32)> = Vec::new();
    let mut i2: usize = 0;
    while i2 < acts.len()
        invariant
            i2 <= acts@.len(),
            glen == global_data@.len(),
            cb_g == code_base_of(glen),
            cb64 == cb_g,
            exps == exports_list(acts@, cb_g),
            ser_fits(acts@, glen),
            forall|t: int|
                0 <= t < acts@.len() ==> crate::stcm2::wf_action((#[trigger] acts@[t]).1),
            out@ == head + ser_stream(acts@.take(i2 as int), filler, cb_g),
            exports@.len() == exports_list(acts@.take(i2 as int), cb_g).len(),
            forall|k: int|
                0 <= k < exports@.len() ==> (#[trigger] exports@[k]).0@ == exports_list(
                    acts@.take(i2 as int),
                    cb_g,
                )[k].0 && exports@[k].1 == exports_list(acts@.take(i2 as int), cb_g)[k].1
                    && exports@[k].0@.len() <= 32,
        decreases acts@.len() - i2,
    {
        let a = &acts[i2].1;
        let pos = acts[i2].0;
        proof {
            assert(action_fits(acts@[i2 as int].1, cb_g, acts@[i2 as int].0 as int));
        }
        let ghost pre_stream = out@;
        let n = a.params.len();
        let da: u32 = (cb64 + pos as u64 + 16 + 12 * (n as u64)) as u32;

        if a.call {
            crate::words::push_u32_le(&mut out, 1);
            crate::words::push_u32_le(&mut out, (cb64 + a.opcode as u64) as u32);
        } else {
            crate::words::push_u32_le(&mut out, 0);
            crate::words::push_u32_le(&mut out, a.opcode);
        }
        crate::words::push_u32_le(&mut out, n as u32);
        let alen: u64 = 16 + 12 * (n as u64) + (a.data.len() as u64);
        crate::words::push_u32_le(&mut out, alen as u32);
        let ghost hdr4 = u32_le_bytes(
            if a.call {
                1u32
            } else {
                0u32
            },
        ) + u32_le_bytes(
            if a.call {
                (cb_g + a.opcode) as u32
            } else {
                a.opcode
            },
        ) + u32_le_bytes(a.params@.len() as u32) + u32_le_bytes(action_len_spec(acts@[i2 as int].1) as u32);
        proof {
            assert(out@ =~= pre_stream + hdr4);
        }

        let mut j: usize = 0;
        proof {
            assert(a.params@.take(0) =~= Seq::<Parameter>::empty());
        }
        while j < a.params.len()
            invariant
                i2 < acts@.len(),
                a == acts@[i2 as int].1,
                pos == acts@[i2 as int].0,
                cb_g == code_base_of(glen),
                cb64 == cb_g,
                n == a.params@.len(),
                da == cb_g + pos + 16 + 12 * a.params@.len(),
                action_fits(acts@[i2 as int].1, cb_g, acts@[i2 as int].0 as int),
                j <= a.params@.len(),
                out@ == pre_stream + hdr4 + ser_params(
                    a.params@.take(j as int),
                    filler,
                    cb_g,
                    da as int,
                ),
            decreases a.params@.len() - j,
        {
            let ghost pre_p = out@;
            match a.params[j] {
                Parameter::Value(v) => {
                    crate::words::push_u32_le(&mut out, v);
                    crate::words::push_u32_le(&mut out, filler);
                    crate::words::push_u32_le(&mut out, filler);
                },
                Parameter::GlobalDataPointer(off) => {
                    crate::words::push_u32_le(&mut out, GLOBAL_DATA_OFFSET as u32 + off);
                    crate::words::push_u32_le(&mut out, filler);
                    crate::words::push_u32_le(&mut out, filler);
                },
                Parameter::DataPointer(off) => {
                    crate::words::push_u32_le(&mut out, da + off);
                    crate::words::push_u32_le(&mut out, filler);
                    crate::words::push_u32_le(&mut out, filler);
                },
                Parameter::ActionRef(ptr) => {
                    crate::words::push_u32_le(&mut out, ACTION_REF_MARKER);
                    crate::words::push_u32_le(&mut out, (cb64 + ptr as u64) as u32);
                    crate::words::push_u32_le(&mut out, filler);
                },
            }
            proof {
                assert(param_fits(a.params@[j as int], cb_g, da as int));
                assert(out@ =~= pre_p + ser_param(a.params@[j as int], filler, cb_g, da as int));
                lemma_ser_params_take(a.params@, filler, cb_g, da as int, j as int);
                assert(out@ =~= pre_stream + hdr4 + ser_params(
                    a.params@.take(j + 1),
                    filler,
                    cb_g,
                    da as int,
                ));
            }
            j = j + 1;
        }
        crate::words::push_bytes(&mut out, &a.data);
        proof {
            assert(a.params@.take(a.params@.len() as int) =~= a.params@);
            assert(out@ =~= pre_stream + ser_action(
                acts@[i2 as int].1,
                filler,
                cb_g,
                acts@[i2 as int].0 as int,
            ));
            lemma_ser_stream_take(acts@, filler, cb_g, i2 as int);
            assert(out@ =~= head + ser_stream(acts@.take(i2 + 1), filler, cb_g));
            lemma_exports_list_take(acts@, cb_g, i2 as int);
        }
        match &a.export {
            None => (),
            Some(name) => {
                let addr: u32 = (cb64 + pos as u64) as u32;
                let namec = copy_bytes(name);
                let ghost pre_e = exports@;
                exports.push((namec, addr));
                proof {
                    let el = exports_list(acts@.take(i2 + 1), cb_g);
                    assert(el == exports_list(acts@.take(i2 as int), cb_g).push(
                        (name@, cb_g + pos),
                    ));
                    assert forall|k: int| 0 <= k < exports@.len() implies (#[trigger] exports@[
                        k
                    ]).0@ == el[k].0 && exports@[k].1 == el[k].1 && exports@[k].0@.len() <= 32 by {
                        if k < pre_e.len() {
                            assert(exports@[k] == pre_e[k]);
                            assert(el[k] == exports_list(acts@.take(i2 as int), cb_g)[k]);
                        } else {
                            assert(exports@[k] == (namec, addr));
                        }
                    }
                }
            },
        }
        i2 = i2 + 1;
    }
    proof {
        assert(acts@.take(acts@.len() as int) =~= acts@);
    }

    let m4 = crate::stcm2::export_data_magic_vec();
    crate::words::push_bytes(&mut out, &m4);
    let ghost h2 = head + ser_stream(acts@, filler, cb_g) + export_data_magic();
    proof {
        assert(out@ =~= h2);
        assert(exps.take(0) =~= Seq::<(Seq<u8>, int)>::empty());
    }
    let mut k: usize = 0;
    while k < exports.len()
        invariant
            k <= exports@.len(),
            exps == exports_list(acts@, cb_g),
            exports@.len() == exps.len(),
            forall|t: int|
                0 <= t < exports@.len() ==> (#[trigger] exports@[t]).0@ == exps[t].0 && exports@[
                    t
                ].1 == exps[t].1 && exports@[t].0@.len() <= 32,
            out@ == h2 + ser_exports(exps.take(k as int)),
        decreases exports@.len() - k,
    {
        let ghost pre_x = out@;
        let name_len = exports[k].0.len();
        crate::words::push_u32_le(&mut out, 0);
        let nm = copy_bytes(&exports[k].0);
        crate::words::push_bytes(&mut out, &nm);
        crate::words::push_zeros(&mut out, 32 - name_len);
        crate::words::push_u32_le(&mut out, exports[k].1);
        proof {
            assert(out@ =~= pre_x + ser_export(exps[k as int].0, exps[k as int].1));
            lemma_ser_exports_take(exps, k as int);
            assert(out@ =~= h2 + ser_exports(exps.take(k + 1)));
        }
        k = k + 1;
    }
    proof {
        assert(exps.take(exps.len() as int) =~= exps);
    }
    let m5 = crate::stcm2::collection_link_magic_vec();
    crate::words::push_bytes(&mut out, &m5);
    crate::words::push_u32_le(&mut out, 0);
    crate::words::push_u32_le(&mut out, total64 as u32);
    crate::words::push_zeros(&mut out, 56);
    proof {
        assert(out@ =~= render_file(tag@, global_data@, acts@, filler));
    }
    Ok(out)
}

} // verus!

verus! {

/// The ASCII whitespace the tokenizer skips between tokens.
pub open spec fn is_ws(c: char) -> bool {
    c == ' ' || c == '\t' || c == '\n' || c == '\r' || c == '\u{c}'
}

pub open spec fn trim_amt(s: Seq<char>) -> int
    decreases s.len(),
{
    if s.len() > 0 && is_ws(s[0]) {
        1 + trim_amt(s.drop_first())
    } else {
        0
    }
}

pub proof fn lemma_trim_amt(s: Seq<char>)
    ensures
        0 <= trim_amt(s) <= s.len(),
        forall|i: int| 0 <= i < trim_amt(s) ==> is_ws(#[trigger] s[i]),
        trim_amt(s) < s.len() ==> !is_ws(s[trim_amt(s)]),
    decreases s.len(),
{
    if s.len() > 0 && is_ws(s[0]) {
        lemma_trim_amt(s.drop_first());
        assert forall|i: int| 0 <= i < trim_amt(s) implies is_ws(#[trigger] s[i]) by {
            if i > 0 {
                assert(s.drop_first()[i - 1] == s[i]);
            }
        }
    }
}

/// How a scan for a string token's closing quote ends.
pub enum QScan {
    /// The position just past the closing quote.
    End(int),
    /// The token never closes.
    NoEnd,
    /// An escape the grammar does not know.
    BadEscape,
}

/// The next scan position, clamped to the end.
pub open spec fn nx(s: Seq<char>, i: int, d: int) -> int {
    if i + d > s.len() {
        s.len() as int
    } else {
        i + d
    }
}

/// Scan a quoted token from just after the opening quote: `\"` and `\\`
/// skip one char, `\x` and `\X` skip three, an unescaped quote ends the
/// token, and any other escape is malformed.
pub open spec fn qscan(s: Seq<char>, i: int) -> QScan
    decreases s.len() - i,
        when 0 <= i <= s.len()
{
    if i >= s.len() {
        QScan::NoEnd
    } else if s[i] == '"' {
        QScan::End(i + 1)
    } else if s[i] == '\\' {
        if i + 1 < s.len() {
            if s[i + 1] == '"' || s[i + 1] == '\\' {
                qscan(s, nx(s, i, 2))
            } else if s[i + 1] == 'x' || s[i + 1] == 'X' {
                qscan(s, nx(s, i, 4))
            } else {
                QScan::BadEscape
            }
        } else {
            QScan::NoEnd
        }
    } else {
        qscan(s, nx(s, i, 1))
    }
}

/// The first comma at or after `i`, or the length if none.
pub open spec fn find_comma(s: Seq<char>, i: int) -> int
    decreases s.len() - i,
        when 0 <= i <= s.len()
{
    if i >= s.len() {
        s.len() as int
    } else if s[i] == ',' {
        i
    } else {
        find_comma(s, i + 1)
    }
}

/// The first ` ! ` at or after `i`, or the length if none.
pub open spec fn find_bang(s: Seq<char>, i: int) -> int
    decreases s.len() - i,
        when 0 <= i <= s.len()
{
    if i + 3 > s.len() {
        s.len() as int
    } else if s[i] == ' ' && s[i + 1] == '!' && s[i + 2] == ' ' {
        i
    } else {
        find_bang(s, i + 1)
    }
}

/// What the tokenizer returns on the rest of an instruction line: the
/// comma-separated operand tokens (quoted tokens keep their quotes) and the
/// trailing junk text after a `! `, if any. `None` on bad quoting or a
/// malformed escape.
pub open spec fn split_spec(s: Seq<char>) -> Option<(Seq<Seq<char>>, Option<Seq<char>>)>
    decreases s.len(),
{
    let u = s.skip(trim_amt(s));
    if u.len() == 0 {
        Some((seq![], None))
    } else if u.len() >= 2 && u[0] == '!' && u[1] == ' ' {
        Some((seq![], Some(u.skip(2))))
    } else if u[0] == '"' {
        match qscan(u, 1) {
            QScan::End(e) => {
                let tok = u.take(e);
                let rest0 = u.skip(e);
                let rest = if rest0.len() >= 2 && rest0[0] == ',' && rest0[1] == ' ' {
                    rest0.skip(2)
                } else {
                    rest0
                };
                if rest.len() < s.len() {
                    match split_spec(rest) {
                        Some((ps, j)) => Some((seq![tok] + ps, j)),
                        None => None,
                    }
                } else {
                    None
                }
            },
            QScan::NoEnd => None,
            QScan::BadEscape => None,
        }
    } else {
        let c = find_comma(u, 0);
        if c < u.len() {
            let tok = u.take(c);
            let rest = u.skip(c + 1);
            if rest.len() < s.len() {
                match split_spec(rest) {
                    Some((ps, j)) => Some((seq![tok] + ps, j)),
                    None => None,
                }
            } else {
                None
            }
        } else {
            let b = find_bang(u, 0);
            if b < u.len() {
                let tok = u.take(b);
                let rest = u.skip(b);
                if rest.len() < s.len() {
                    match split_spec(rest) {
                        Some((ps, j)) => Some((seq![tok] + ps, j)),
                        None => None,
                    }
                } else {
                    None
                }
            } else {
                Some((seq![u], None))
            }
        }
    }
}

} // verus!

verus! {

/// Copy `v[from..to]` out as a fresh char vector.
pub fn copy_chars(v: &Vec<char>, from: usize, to: usize) -> (r: Vec<char>)
    requires
        from <= to <= v@.len(),
    ensures
        r@ == v@.subrange(from as int, to as int),
{
    let mut out: Vec<char> = Vec::new();
    let mut i: usize = from;
    while i < to
        invariant
            from <= i <= to <= v@.len(),
            out@ == v@.subrange(from as int, i as int),
        decreases to - i,
    {
        out.push(v[i]);
        proof {
            assert(v@.subrange(from as int, i + 1) =~= v@.subrange(from as int, i as int).push(
                v@[i as int],
            ));
        }
        i = i + 1;
    }
    out
}

/// Prepending the tokens already taken to what the rest still yields.
pub open spec fn app_split(
    acc: Seq<Seq<char>>,
    r: Option<(Seq<Seq<char>>, Option<Seq<char>>)>,
) -> Option<(Seq<Seq<char>>, Option<Seq<char>>)> {
    match r {
        Some((ps, j)) => Some((acc + ps, j)),
        None => None,
    }
}

/// Tokenize the rest of an instruction line: comma-separated operand
/// tokens, quoted tokens scanned with the escape grammar, and an optional
/// trailing junk field after `! `. Mirrors `split_spec` exactly.
#[verifier::rlimit(100)]
pub fn split(instr: &Vec<char>, line_no: usize) -> (r: Result<
    (Vec<Vec<char>>, Option<Vec<char>>),
    Error,
>)
    ensures
        match r {
            Ok((parts, junk)) => {
                &&& split_spec(instr@) is Some
                &&& {
                    let (ps, j) = split_spec(instr@).unwrap();
                    &&& parts@.len() == ps.len()
                    &&& forall|k: int| 0 <= k < ps.len() ==> (#[trigger] parts@[k])@ == ps[k]
                    &&& match junk {
                        Some(jv) => j == Some(jv@),
                        None => j is None,
                    }
                }
            },
            Err(e) => split_spec(instr@) is None && (e == Error::Syntax(line_no as usize) || e
                == Error::MalformedEscape(line_no as usize)),
        },
{
    let mut parts: Vec<Vec<char>> = Vec::new();
    let ghost mut acc: Seq<Seq<char>> = Seq::empty();
    let mut cur: Vec<char> = copy_chars(instr, 0, instr.len());
    proof {
        assert(cur@ =~= instr@);
        assert(acc + split_spec(cur@).unwrap().0 =~= split_spec(cur@).unwrap().0);
    }
    loop
        invariant
            app_split(acc, split_spec(cur@)) == split_spec(instr@),
            parts@.len() == acc.len(),
            forall|k: int| 0 <= k < acc.len() ==> (#[trigger] parts@[k])@ == acc[k],
        decreases cur@.len(),
    {
        let n = cur.len();
        // skip leading whitespace
        let mut t: usize = 0;
        while t < n && (cur[t] == ' ' || cur[t] == '\t' || cur[t] == '\n' || cur[t] == '\r'
            || cur[t] == '\u{c}')
            invariant
                t <= n,
                n == cur@.len(),
                forall|q: int| 0 <= q < t ==> is_ws(#[trigger] cur@[q]),
            decreases n - t,
        {
            t = t + 1;
        }
        proof {
            lemma_trim_amt(cur@);
            if t < trim_amt(cur@) {
                assert(is_ws(cur@[t as int]));
                assert(false);
            }
            if trim_amt(cur@) < t {
                assert(is_ws(cur@[trim_amt(cur@)]));
                assert(false);
            }
            assert(t == trim_amt(cur@));
        }
        let ghost u = cur@.skip(t as int);
        proof {
            assert(u.len() == n - t);
            assert forall|q: int| 0 <= q < u.len() implies u[q] == cur@[t + q] by {}
        }
        if t == n {
            proof {
                assert(split_spec(cur@) == Some((Seq::<Seq<char>>::empty(), Option::<
                    Seq<char>,
                >::None)));
                assert(acc + Seq::<Seq<char>>::empty() =~= acc);
            }
            return Ok((parts, None));
        }
        if cur[t] == '!' && t + 1 < n && cur[t + 1] == ' ' {
            let junk = copy_chars(&cur, t + 2, n);
            proof {
                assert(u.len() >= 2 && u[0] == '!' && u[1] == ' ');
                assert(u.skip(2) =~= cur@.subrange(t + 2, n as int));
                assert(split_spec(cur@) == Some((Seq::<Seq<char>>::empty(), Some(u.skip(2)))));
                assert(acc + Seq::<Seq<char>>::empty() =~= acc);
            }
            return Ok((parts, Some(junk)));
        }
        if cur[t] == '"' {
            // scan for the closing quote
            let mut i: usize = t + 1;
            let mut qr: usize = 0;  // position just past the closing quote
            loop
                invariant_except_break
                    app_split(acc, split_spec(cur@)) == split_spec(instr@),
                    t < n,
                    n == cur@.len(),
                    t == trim_amt(cur@),
                    u == cur@.skip(t as int),
                    u.len() > 0 && u[0] == '"',
                    t + 1 <= i,
                    i <= n + 3,
                    qscan(u, 1) == if i - t <= u.len() {
                        qscan(u, i - t)
                    } else {
                        QScan::NoEnd
                    },
                ensures
                    t < n,
                    n == cur@.len(),
                    t == trim_amt(cur@),
                    u == cur@.skip(t as int),
                    u.len() > 0 && u[0] == '"',
                    t + 2 <= qr <= n,
                    qscan(u, 1) == QScan::End(qr - t),
                decreases n + 4 - i,
            {
                proof {
                    if i - t > u.len() {
                        assert(qscan(u, 1) == QScan::NoEnd);
                    }
                }
                if i >= n {
                    proof {
                        assert(qscan(u, 1) == QScan::NoEnd);
                        assert(u[0] == '"');
                        assert(split_spec(cur@) is None);
                    }
                    return Err(Error::Syntax(line_no));
                }
                let c = cur[i];
                proof {
                    assert(u[i - t] == cur@[i as int]);
                }
                if c == '"' {
                    proof {
                        assert(qscan(u, i - t) == QScan::End(i - t + 1));
                    }
                    qr = i + 1;
                    break ;
                } else if c == '\\' {
                    if i + 1 < n {
                        let p = cur[i + 1];
                        proof {
                            assert(u[i + 1 - t] == cur@[i + 1]);
                        }
                        if p == '"' || p == '\\' {
                            i = i + 2;
                        } else if p == 'x' || p == 'X' {
                            i = if n - i >= 4 {
                                i + 4
                            } else {
                                n
                            };
                        } else {
                            proof {
                                assert(qscan(u, i - t) == QScan::BadEscape);
                                assert(u[0] == '"');
                                assert(split_spec(cur@) is None);
                            }
                            return Err(Error::MalformedEscape(line_no));
                        }
                    } else {
                        proof {
                            assert(qscan(u, i - t) == QScan::NoEnd);
                            assert(u[0] == '"');
                            assert(split_spec(cur@) is None);
                        }
                        return Err(Error::Syntax(line_no));
                    }
                } else {
                    i = i + 1;
                }
            }
            let ghost e = qr - t;
            proof {
                assert(qscan(u, 1) == QScan::End(e));
                lemma_qscan_end_bounds(u, 1, e);
            }
            let tok = copy_chars(&cur, t, qr);
            proof {
                assert(tok@ =~= u.take(e));
            }
            // strip an optional `, ` separator after the token
            let mut after: usize = qr;
            if n - qr >= 2 && cur[qr] == ',' && cur[qr + 1] == ' ' {
                after = qr + 2;
            }
            let ghost rest0 = u.skip(e);
            let ghost rest = if rest0.len() >= 2 && rest0[0] == ',' && rest0[1] == ' ' {
                rest0.skip(2)
            } else {
                rest0
            };
            proof {
                assert(rest0.len() == n - qr);
                if rest0.len() >= 2 {
                    assert(rest0[0] == cur@[qr as int] && rest0[1] == cur@[qr + 1]);
                }
                assert(rest =~= cur@.subrange(after as int, n as int));
                assert(rest.len() < cur@.len());
            }
            let newcur = copy_chars(&cur, after, n);
            let ghost pre_acc = acc;
            parts.push(tok);
            proof {
                acc = acc.push(u.take(e));
                let (ps, j) = split_spec(rest).unwrap();
                if split_spec(rest) is Some {
                    assert(split_spec(cur@) == Some((seq![u.take(e)] + ps, j)));
                    assert(pre_acc + (seq![u.take(e)] + ps) =~= acc + ps);
                }
            }
            cur = newcur;
            continue ;
        }
        // unquoted token: up to a comma, a ` ! `, or the end
        let mut ci: usize = t;
        while ci < n && cur[ci] != ','
            invariant
                t <= ci <= n,
                n == cur@.len(),
                u == cur@.skip(t as int),
                forall|q: int| t <= q < ci ==> #[trigger] cur@[q] != ',',
            decreases n - ci,
        {
            ci = ci + 1;
        }
        proof {
            lemma_find_comma_char(u, ci - t);
        }
        if ci < n {
            let tok = copy_chars(&cur, t, ci);
            let newcur = copy_chars(&cur, ci + 1, n);
            proof {
                assert(tok@ =~= u.take(ci - t));
                assert(newcur@ =~= u.skip(ci - t + 1));
                assert(newcur@.len() < cur@.len());
            }
            let ghost pre_acc = acc;
            parts.push(tok);
            proof {
                acc = acc.push(u.take(ci - t));
                let r2 = split_spec(newcur@);
                if r2 is Some {
                    let (ps, j) = r2.unwrap();
                    assert(split_spec(cur@) == Some((seq![u.take(ci - t)] + ps, j)));
                    assert(pre_acc + (seq![u.take(ci - t)] + ps) =~= acc + ps);
                }
            }
            cur = newcur;
            continue ;
        }
        let mut bi: usize = t;
        while n - bi >= 3 && !(cur[bi] == ' ' && cur[bi + 1] == '!' && cur[bi + 2] == ' ')
            invariant
                t <= bi <= n,
                n == cur@.len(),
                u == cur@.skip(t as int),
                forall|q: int|
                    t <= q < bi ==> !((#[trigger] cur@[q]) == ' ' && q + 2 < n && cur@[q + 1]
                        == '!' && cur@[q + 2] == ' '),
            decreases n - bi,
        {
            bi = bi + 1;
        }
        if n - bi >= 3 {
            proof {
                lemma_find_bang_char(u, bi - t);
            }
            let tok = copy_chars(&cur, t, bi);
            let newcur = copy_chars(&cur, bi, n);
            proof {
                assert(tok@ =~= u.take(bi - t));
                assert(newcur@ =~= u.skip(bi - t));
                assert(u[bi - t] == ' ');
                assert(bi > t);
                assert(newcur@.len() < cur@.len());
            }
            let ghost pre_acc = acc;
            parts.push(tok);
            proof {
                acc = acc.push(u.take(bi - t));
                let r2 = split_spec(newcur@);
                if r2 is Some {
                    let (ps, j) = r2.unwrap();
                    assert(split_spec(cur@) == Some((seq![u.take(bi - t)] + ps, j)));
                    assert(pre_acc + (seq![u.take(bi - t)] + ps) =~= acc + ps);
                }
            }
            cur = newcur;
            continue ;
        }
        proof {
            lemma_find_comma_char(u, u.len() as int);
            lemma_find_bang_none(u, bi - t);
            assert(split_spec(cur@) == Some((seq![u], Option::<Seq<char>>::None)));
        }
        let tok = copy_chars(&cur, t, n);
        parts.push(tok);
        proof {
            assert(tok@ =~= u);
            acc = acc.push(u);
            assert((acc.drop_last()) + (seq![u] + Seq::<Seq<char>>::empty()) =~= acc);
        }
        return Ok((parts, None));
    }
}

/// A successful quote scan ends at least two past the opening quote and
/// within the token.
proof fn lemma_qscan_end_bounds(u: Seq<char>, i: int, e: int)
    requires
        0 <= i <= u.len(),
        qscan(u, i) == QScan::End(e),
    ensures
        i + 1 <= e <= u.len(),
    decreases u.len() - i,
{
    if i >= u.len() {
    } else if u[i] == '"' {
    } else if u[i] == '\\' {
        if i + 1 < u.len() {
            if u[i + 1] == '"' || u[i + 1] == '\\' {
                lemma_qscan_end_bounds(u, nx(u, i, 2), e);
            } else if u[i + 1] == 'x' || u[i + 1] == 'X' {
                lemma_qscan_end_bounds(u, nx(u, i, 4), e);
            }
        }
    } else {
        lemma_qscan_end_bounds(u, nx(u, i, 1), e);
    }
}

/// The exec comma scan finds exactly `find_comma`.
proof fn lemma_find_comma_char(u: Seq<char>, c: int)
    requires
        0 <= c <= u.len(),
        forall|q: int| 0 <= q < c ==> #[trigger] u[q] != ',',
        c < u.len() ==> u[c] == ',',
    ensures
        find_comma(u, 0) == if c < u.len() {
            c
        } else {
            u.len() as int
        },
{
    lemma_find_comma_step(u, 0, c);
}

proof fn lemma_find_comma_step(u: Seq<char>, i: int, c: int)
    requires
        0 <= i <= c <= u.len(),
        forall|q: int| i <= q < c ==> #[trigger] u[q] != ',',
        c < u.len() ==> u[c] == ',',
    ensures
        find_comma(u, i) == if c < u.len() {
            c
        } else {
            u.len() as int
        },
    decreases c - i,
{
    if i < c {
        lemma_find_comma_step(u, i + 1, c);
    }
}

/// The exec bang scan finds exactly `find_bang`.
proof fn lemma_find_bang_char(u: Seq<char>, b: int)
    requires
        0 <= b,
        b + 3 <= u.len(),
        forall|q: int|
            0 <= q < b ==> !(u[q] == ' ' && q + 2 < u.len() && u[q + 1] == '!' && #[trigger] u[q
                + 2] == ' '),
        u[b] == ' ' && u[b + 1] == '!' && u[b + 2] == ' ',
    ensures
        find_bang(u, 0) == b,
{
    lemma_find_bang_step(u, 0, b);
}

proof fn lemma_find_bang_step(u: Seq<char>, i: int, b: int)
    requires
        0 <= i <= b,
        b + 3 <= u.len(),
        forall|q: int|
            i <= q < b ==> !(u[q] == ' ' && q + 2 < u.len() && u[q + 1] == '!' && #[trigger] u[q
                + 2] == ' '),
        u[b] == ' ' && u[b + 1] == '!' && u[b + 2] == ' ',
    ensures
        find_bang(u, i) == b,
    decreases b - i,
{
    if i < b {
        lemma_find_bang_step(u, i + 1, b);
    }
}

/// No ` ! ` was found up to the point where three chars no longer fit.
proof fn lemma_find_bang_none(u: Seq<char>, b: int)
    requires
        0 <= b <= u.len(),
        b + 3 > u.len(),
        forall|q: int|
            0 <= q < b ==> !(u[q] == ' ' && q + 2 < u.len() && u[q + 1] == '!' && #[trigger] u[q
                + 2] == ' '),
    ensures
        find_bang(u, 0) == u.len(),
{
    lemma_find_bang_none_step(u, 0, b);
}

proof fn lemma_find_bang_none_step(u: Seq<char>, i: int, b: int)
    requires
        0 <= i <= b <= u.len(),
        b + 3 > u.len(),
        forall|q: int|
            i <= q < b ==> !(u[q] == ' ' && q + 2 < u.len() && u[q + 1] == '!' && #[trigger] u[q
                + 2] == ' '),
    ensures
        find_bang(u, i) == u.len(),
    decreases u.len() + 3 - i,
{
    if i + 3 <= u.len() {
        assert(i < b);
        lemma_find_bang_none_step(u, i + 1, b);
    }
}

} // verus!

verus! {

/// A label-definition atom boundary scan: walk label atoms (printable
/// chars and `\xHH` escapes) from the line's start, remembering the last
/// boundary followed by `: `; that boundary ends the label token.
pub open spec fn label_scan(s: Seq<char>, q: int, best: Option<int>) -> Option<int>
    decreases s.len() - q,
    when 0 <= q <= s.len()
{
    let best2 = if q > 0 && q + 1 < s.len() && s[q] == ':' && s[q + 1] == ' ' {
        Some(q)
    } else {
        best
    };
    if q < s.len() && crate::escape::is_label_char_c(s[q]) {
        label_scan(s, q + 1, best2)
    } else if q + 4 <= s.len() && s[q] == '\\' && s[q + 1] == 'x' && crate::escape::is_lhex(
        s[q + 2],
    ) && crate::escape::is_lhex(s[q + 3]) {
        label_scan(s, q + 4, best2)
    } else {
        best2
    }
}

/// Where the line's label token ends, if it has one.
pub open spec fn label_pos(s: Seq<char>) -> Option<int> {
    label_scan(s, 0, None)
}

/// A found label boundary sits strictly inside the line, with room for the
/// `: ` separator after it.
pub proof fn lemma_label_scan_bounds(s: Seq<char>, q: int, best: Option<int>)
    requires
        0 <= q <= s.len(),
        match best {
            Some(b) => 0 < b && b + 1 < s.len(),
            None => true,
        },
    ensures
        match label_scan(s, q, best) {
            Some(b) => 0 < b && b + 1 < s.len(),
            None => true,
        },
    decreases s.len() - q,
{
    if q < s.len() && crate::escape::is_label_char_c(s[q]) {
        lemma_label_scan_bounds(
            s,
            q + 1,
            if q > 0 && q + 1 < s.len() && s[q] == ':' && s[q + 1] == ' ' {
                Some(q)
            } else {
                best
            },
        );
    } else if q + 4 <= s.len() && s[q] == '\\' && s[q + 1] == 'x' && crate::escape::is_lhex(
        s[q + 2],
    ) && crate::escape::is_lhex(s[q + 3]) {
        lemma_label_scan_bounds(
            s,
            q + 4,
            if q > 0 && q + 1 < s.len() && s[q] == ':' && s[q + 1] == ' ' {
                Some(q)
            } else {
                best
            },
        );
    }
}

/// Find the label boundary by the same scan the spec makes.
fn find_label(line: &Vec<char>) -> (r: Option<usize>)
    ensures
        match r {
            Some(q) => label_pos(line@) == Some(q as int),
            None => label_pos(line@) is None,
        },
{
    let n = line.len();
    let mut q: usize = 0;
    let mut best: Option<usize> = None;
    loop
        invariant_except_break
            q <= n,
            n == line@.len(),
            label_pos(line@) == label_scan(
                line@,
                q as int,
                match best {
                    Some(b) => Some(b as int),
                    None => None,
                },
            ),
        ensures
            match best {
                Some(b) => label_pos(line@) == Some(b as int),
                None => label_pos(line@) is None,
            },
        decreases n - q,
    {
        if q > 0 && n - q > 1 && line[q] == ':' && line[q + 1] == ' ' {
            best = Some(q);
        }
        let c_ok = q < n && {
            let c = line[q];
            (('!' <= c && c <= '[') || (']' <= c && c <= '~'))
        };
        if c_ok {
            q = q + 1;
        } else if n - q >= 4 && line[q] == '\\' && line[q + 1] == 'x' && {
            let h1 = line[q + 2];
            let h2 = line[q + 3];
            (('0' <= h1 && h1 <= '9') || ('a' <= h1 && h1 <= 'f')) && (('0' <= h2 && h2 <= '9')
                || ('a' <= h2 && h2 <= 'f'))
        } {
            q = q + 4;
        } else {
            break ;
        }
    }
    best
}

/// The first mnemonic entry with this name, searched front to back.
pub open spec fn mn_by_name(mn: Seq<(Vec<char>, u32)>, name: Seq<char>) -> Option<u32>
    decreases mn.len(),
{
    if mn.len() == 0 {
        None
    } else if mn[0].0@ == name {
        Some(mn[0].1)
    } else {
        mn_by_name(mn.drop_first(), name)
    }
}

/// The first mnemonic entry with this opcode, searched front to back.
pub open spec fn mn_by_opcode(mn: Seq<(Vec<char>, u32)>, op: u32) -> Option<Seq<char>>
    decreases mn.len(),
{
    if mn.len() == 0 {
        None
    } else if mn[0].1 == op {
        Some(mn[0].0@)
    } else {
        mn_by_opcode(mn.drop_first(), op)
    }
}

/// Are two char vectors equal?
fn chars_eq(a: &Vec<char>, b: &Vec<char>) -> (r: bool)
    ensures
        r == (a@ == b@),
{
    if a.len() != b.len() {
        proof {
            assert(a@ != b@);
        }
        return false;
    }
    let mut i: usize = 0;
    while i < a.len()
        invariant
            i <= a@.len(),
            a@.len() == b@.len(),
            forall|t: int| 0 <= t < i ==> a@[t] == b@[t],
        decreases a@.len() - i,
    {
        if a[i] != b[i] {
            return false;
        }
        i = i + 1;
    }
    proof {
        assert(a@ =~= b@);
    }
    true
}

/// Look a mnemonic name up.
pub fn mnemonic_by_name(mn: &Vec<(Vec<char>, u32)>, name: &Vec<char>) -> (r: Option<u32>)
    ensures
        r == mn_by_name(mn@, name@),
{
    let mut i: usize = 0;
    proof {
        assert(mn@.skip(0) =~= mn@);
    }
    while i < mn.len()
        invariant
            i <= mn@.len(),
            mn_by_name(mn@, name@) == mn_by_name(mn@.skip(i as int), name@),
        decreases mn@.len() - i,
    {
        proof {
            assert(mn@.skip(i as int)[0] == mn@[i as int]);
            assert(mn@.skip(i as int).drop_first() =~= mn@.skip(i + 1));
        }
        if chars_eq(&mn[i].0, name) {
            return Some(mn[i].1);
        }
        i = i + 1;
    }
    proof {
        assert(mn@.skip(mn@.len() as int) =~= Seq::<(Vec<char>, u32)>::empty());
    }
    None
}

/// Look a mnemonic up by opcode, for the disassembler.
pub fn mnemonic_by_opcode(mn: &Vec<(Vec<char>, u32)>, op: u32) -> (r: Option<Vec<char>>)
    ensures
        match r {
            Some(v) => mn_by_opcode(mn@, op) == Some(v@),
            None => mn_by_opcode(mn@, op) is None,
        },
{
    let mut i: usize = 0;
    proof {
        assert(mn@.skip(0) =~= mn@);
    }
    while i < mn.len()
        invariant
            i <= mn@.len(),
            mn_by_opcode(mn@, op) == mn_by_opcode(mn@.skip(i as int), op),
        decreases mn@.len() - i,
    {
        proof {
            assert(mn@.skip(i as int)[0] == mn@[i as int]);
            assert(mn@.skip(i as int).drop_first() =~= mn@.skip(i + 1));
        }
        if mn[i].1 == op {
            return Some(copy_chars(&mn[i].0, 0, mn[i].0.len()));
        }
        i = i + 1;
    }
    proof {
        assert(mn@.skip(mn@.len() as int) =~= Seq::<(Vec<char>, u32)>::empty());
    }
    None
}

/// A label name the resolver registers but never exports.
pub open spec fn is_local_name(b: Seq<u8>) -> bool {
    (b.len() >= 6 && b[0] == 108 && b[1] == 111 && b[2] == 99 && b[3] == 97 && b[4] == 108 && b[5]
        == 95) || (b.len() >= 3 && b[0] == 102 && b[1] == 110 && b[2] == 95)
}

fn check_local_name(b: &Vec<u8>) -> (r: bool)
    ensures
        r == is_local_name(b@),
{
    (b.len() >= 6 && b[0] == 108 && b[1] == 111 && b[2] == 99 && b[3] == 97 && b[4] == 108 && b[5]
        == 95) || (b.len() >= 3 && b[0] == 102 && b[1] == 110 && b[2] == 95)
}

/// Look a name up in the pending-reference table, inserting it unresolved
/// when absent, and hand back its insertion index.
fn lookup_or_insert(table: &mut indexmap::IndexMap<Vec<u8>, Option<u32>>, name: Vec<u8>) -> (r:
    Result<u32, Error>)
    ensures
        match r {
            Ok(idx) => {
                let pre = pend_entries(*old(table));
                let post = pend_entries(*final(table));
                &&& (idx as int) < post.len()
                &&& post[idx as int].0 == name@
                &&& (post == pre && pre[idx as int].0 == name@ || post == pre.push(
                    (name@, Option::<u32>::None),
                ) && idx == pre.len() && (forall|i: int|
                    0 <= i < pre.len() ==> (#[trigger] pre[i]).0 != name@))
            },
            Err(e) => e == Error::Overflow && pend_entries(*final(table)) == pend_entries(
                *old(table),
            ),
        },
{
    match crate::pend::pend_index_of(table, &name) {
        Some(i) => {
            if i > u32::MAX as usize {
                return Err(Error::Overflow);
            }
            Ok(i as u32)
        },
        None => {
            let idx = crate::pend::pend_len(table);
            if idx > u32::MAX as usize {
                return Err(Error::Overflow);
            }
            let prev = crate::pend::pend_insert(table, name, None);
            Ok(idx as u32)
        },
    }
}

} // verus!

verus! {

/// After a line defined a label, the table binds that name to the line's
/// action index.
pub open spec fn label_bound(
    lbl: Option<Seq<u8>>,
    count: u32,
    entries: Seq<(Seq<u8>, Option<u32>)>,
) -> bool {
    match lbl {
        Some(name) => exists|i: int|
            0 <= i < entries.len() && #[trigger] entries[i] == (name, Some(count)),
        None => true,
    }
}

/// Appending entries never unbinds a name.
pub proof fn lemma_label_bound_grow(
    lbl: Option<Seq<u8>>,
    count: u32,
    pre: Seq<(Seq<u8>, Option<u32>)>,
    post: Seq<(Seq<u8>, Option<u32>)>,
)
    requires
        label_bound(lbl, count, pre),
        post == pre || exists|x: (Seq<u8>, Option<u32>)| post == pre.push(x),
    ensures
        label_bound(lbl, count, post),
{
    match lbl {
        Some(name) => {
            let i = choose|i: int| 0 <= i < pre.len() && #[trigger] pre[i] == (name, Some(count));
            if post != pre {
                let x = choose|x: (Seq<u8>, Option<u32>)| post == pre.push(x);
                assert(post[i] == pre[i]);
            }
            assert(post[i] == (name, Some(count)));
        },
        None => (),
    }
}

/// A call target embeds a sentinel that the table can still resolve.
pub open spec fn call_ok(call: bool, opcode: u32, entries: Seq<(Seq<u8>, Option<u32>)>) -> bool {
    call ==> (sentinel(opcode) as int) < entries.len()
}

/// The label a line defines, as raw name bytes.
pub open spec fn line_label(s: Seq<char>) -> Option<Seq<u8>> {
    match label_pos(s) {
        Some(q) => Some(crate::escape::label_bytes(s.take(q))),
        None => None,
    }
}

/// The line after its label prefix, if it has one.
pub open spec fn rest_of(s: Seq<char>) -> Seq<char> {
    match label_pos(s) {
        Some(q) => s.skip(q + 2),
        None => s,
    }
}

/// The export a line defines: its label name, unless the name is local.
pub open spec fn export_of_line(s: Seq<char>) -> Option<Seq<u8>> {
    match line_label(s) {
        Some(n) => if is_local_name(n) {
            Option::<Seq<u8>>::None
        } else {
            Some(n)
        },
        None => None,
    }
}

/// A `raw HEX` opcode token.
pub open spec fn is_raw_op(op: Seq<char>) -> bool {
    op.len() >= 4 && op[0] == 'r' && op[1] == 'a' && op[2] == 'w' && op[3] == ' '
}

/// A `call LABEL` opcode token.
pub open spec fn is_call_op(op: Seq<char>) -> bool {
    op.len() >= 5 && op[0] == 'c' && op[1] == 'a' && op[2] == 'l' && op[3] == 'l' && op[4] == ' '
}

/// What the opcode token determines: `raw` gives the literal hex value, a
/// mnemonic its table opcode, and `call` a sentinel whose table entry holds
/// the target's name; the three forms are tried in that order.
pub open spec fn op_rel(
    op: Seq<char>,
    mn: Seq<(Vec<char>, u32)>,
    call: bool,
    opcode: u32,
    entries: Seq<(Seq<u8>, Option<u32>)>,
) -> bool {
    if is_raw_op(op) {
        &&& !call
        &&& crate::escape::valid_number(op.skip(4), 16)
        &&& opcode == crate::escape::number_value(op.skip(4), 16)
    } else if mn_by_name(mn, op) is Some {
        &&& !call
        &&& opcode == mn_by_name(mn, op).unwrap()
    } else {
        &&& is_call_op(op)
        &&& call
        &&& (sentinel(opcode) as int) < entries.len()
        &&& entries[sentinel(opcode) as int].0 == crate::escape::label_bytes(op.skip(5))
    }
}

/// An operand token that names a pool entry: quoted text or `=`/`@`
/// literals land in the data pool.
pub open spec fn is_pool_token(part: Seq<char>) -> bool {
    part.len() >= 1 && (part[0] == '"' || part[0] == '=' || part[0] == '@')
}

/// A `[global_data+N]` operand token.
pub open spec fn is_gd_token(part: Seq<char>) -> bool {
    &&& part.len() >= 14
    &&& part[0] == '['
    &&& part[part.len() - 1] == ']'
    &&& part[1] == 'g' && part[2] == 'l' && part[3] == 'o' && part[4] == 'b' && part[5] == 'a'
    &&& part[6] == 'l' && part[7] == '_' && part[8] == 'd' && part[9] == 'a' && part[10] == 't'
    &&& part[11] == 'a' && part[12] == '+'
}

/// What each operand token parses to: pool tokens give `DataPointer`s,
/// `[global_data+N]` the exact offset `N`, `[LABEL]` a sentinel whose table
/// entry holds the label's name, and a bare token the exact hex literal.
pub open spec fn param_shape(
    part: Seq<char>,
    p: Parameter,
    entries: Seq<(Seq<u8>, Option<u32>)>,
) -> bool {
    if is_pool_token(part) {
        p is DataPointer
    } else if part.len() >= 1 && part[0] == '[' {
        if is_gd_token(part) {
            &&& crate::escape::valid_number(part.subrange(13, part.len() - 1), 10)
            &&& crate::escape::number_value(part.subrange(13, part.len() - 1), 10) <= u32::MAX
            &&& p == Parameter::GlobalDataPointer(
                crate::escape::number_value(part.subrange(13, part.len() - 1), 10) as u32,
            )
        } else {
            &&& p is ActionRef
            &&& (sentinel(p->ActionRef_0) as int) < entries.len()
            &&& part.len() >= 2
            &&& part[part.len() - 1] == ']'
            &&& entries[sentinel(p->ActionRef_0) as int].0 == crate::escape::label_bytes(
                part.subrange(1, part.len() - 1),
            )
        }
    } else {
        &&& crate::escape::valid_number(part, 16)
        &&& crate::escape::number_value(part, 16) <= u32::MAX
        &&& p == Parameter::Value(crate::escape::number_value(part, 16) as u32)
    }
}

/// Appending table entries disturbs no already-established token relation.
pub proof fn lemma_param_shape_grow(
    part: Seq<char>,
    p: Parameter,
    pre: Seq<(Seq<u8>, Option<u32>)>,
    post: Seq<(Seq<u8>, Option<u32>)>,
)
    requires
        param_shape(part, p, pre),
        post == pre || exists|x: (Seq<u8>, Option<u32>)| post == pre.push(x),
    ensures
        param_shape(part, p, post),
{
    if post != pre {
        let x = choose|x: (Seq<u8>, Option<u32>)| post == pre.push(x);
        if !is_pool_token(part) && part.len() >= 1 && part[0] == '[' && !is_gd_token(part) {
            assert(post[sentinel(p->ActionRef_0) as int] == pre[sentinel(p->ActionRef_0) as int]);
        }
    }
}

pub proof fn lemma_op_rel_grow(
    op: Seq<char>,
    mn: Seq<(Vec<char>, u32)>,
    call: bool,
    opcode: u32,
    pre: Seq<(Seq<u8>, Option<u32>)>,
    post: Seq<(Seq<u8>, Option<u32>)>,
)
    requires
        op_rel(op, mn, call, opcode, pre),
        post == pre || exists|x: (Seq<u8>, Option<u32>)| post == pre.push(x),
    ensures
        op_rel(op, mn, call, opcode, post),
{
    if post != pre {
        let x = choose|x: (Seq<u8>, Option<u32>)| post == pre.push(x);
        if !is_raw_op(op) && mn_by_name(mn, op) is None {
            assert(post[sentinel(opcode) as int] == pre[sentinel(opcode) as int]);
        }
    }
}

/// Parse one instruction line into an action in index space: define its
/// label in the pending-reference table, tokenize the rest, parse the
/// opcode (raw, mnemonic or call), decode the trailing junk as the data
/// pool's head, and encode each operand, growing the data pool.
#[verifier::rlimit(100)]
pub fn parse_line(
    line: &Vec<char>,
    line_no: usize,
    count: u32,
    table: &mut indexmap::IndexMap<Vec<u8>, Option<u32>>,
    mnemonics: &Vec<(Vec<char>, u32)>,
    enc: crate::text::Encoding,
) -> (r: Result<Option<Action>, Error>)
    ensures
        match r {
            Ok(opt) => match opt {
                None => line@.len() == 0 && pend_entries(*final(table)) == pend_entries(
                    *old(table),
                ),
                Some(act) => {
                    &&& line@.len() > 0
                    &&& crate::stcm2::wf_action(act)
                    &&& label_bound(line_label(line@), count, pend_entries(*final(table)))
                    &&& match line_label(line@) {
                        Some(name) => name.len() <= 32,
                        None => true,
                    }
                    &&& opt_bytes(act.export) == export_of_line(line@)
                    &&& call_ok(act.call, act.opcode, pend_entries(*final(table)))
                    &&& split_spec(rest_of(line@)) is Some
                    &&& {
                        let (parts, junk) = split_spec(rest_of(line@)).unwrap();
                        &&& parts.len() >= 1
                        &&& act.params@.len() == parts.len() - 1
                        &&& op_rel(
                            parts[0],
                            mnemonics@,
                            act.call,
                            act.opcode,
                            pend_entries(*final(table)),
                        )
                        &&& forall|j: int|
                            0 <= j < act.params@.len() ==> param_shape(
                                parts[j + 1],
                                #[trigger] act.params@[j],
                                pend_entries(*final(table)),
                            )
                        &&& exists|jb: Seq<u8>|
                            {
                                &&& match junk {
                                    Some(jt) => crate::text::b64e(jb) == jt,
                                    None => jb == Seq::<u8>::empty(),
                                }
                                &&& jb.len() <= act.data@.len()
                                &&& act.data@.take(jb.len() as int) == jb
                            }
                    }
                },
            },
            Err(e) => (e == Error::Syntax(line_no as usize) || e == Error::MalformedEscape(
                line_no as usize,
            ) || e == Error::BadBase64(line_no as usize) || e == Error::Overflow || e
                == Error::BadCell) && line@.len() > 0,
        },
{
    let ghost entries0 = pend_entries(*table);
    if line.len() == 0 {
        return Ok(None);
    }

    // a leading `label: ` defines (or redefines) the name at this index
    let mut export: Option<Vec<u8>> = None;
    let rest: Vec<char>;
    let ghost lbl = line_label(line@);
    match find_label(line) {
        Some(q) => {
            proof {
                lemma_label_scan_bounds(line@, 0, None);
            }
            let tok = copy_chars(line, 0, q);
            proof {
                assert(tok@ =~= line@.take(q as int));
            }
            let name = crate::escape::decode_label(&tok);
            if name.len() > 32 {
                return Err(Error::Overflow);
            }
            let local = check_local_name(&name);
            if !local {
                export = Some(copy_bytes(&name));
            }
            let ghost namev = name@;
            let _prev = crate::pend::pend_insert(table, name, Some(count));
            proof {
                let post = pend_entries(*table);
                let pre = entries0;
                assert(namev == line_label(line@).unwrap());
                if exists|i: int|
                    0 <= i < pre.len() && (#[trigger] pre[i]).0 == namev && post == pre.update(
                        i,
                        (namev, Some(count)),
                    ) {
                    let i = choose|i: int|
                        0 <= i < pre.len() && (#[trigger] pre[i]).0 == namev && post
                            == pre.update(i, (namev, Some(count)));
                    assert(post[i] == (namev, Some(count)));
                } else {
                    assert(post == pre.push((namev, Some(count))));
                    assert(post[post.len() - 1] == (namev, Some(count)));
                }
                assert(label_bound(lbl, count, post));
            }
            rest = copy_chars(line, q + 2, line.len());
            proof {
                assert(rest@ =~= rest_of(line@));
            }
        },
        None => {
            rest = copy_chars(line, 0, line.len());
            proof {
                assert(rest@ =~= rest_of(line@));
            }
        },
    }
    let ghost entries1 = pend_entries(*table);
    proof {
        assert(label_bound(lbl, count, entries1));
    }

    let (parts, junk) = match split(&rest, line_no) {
        Ok(x) => x,
        Err(e) => {
            return Err(e);
        },
    };
    if parts.len() == 0 {
        return Err(Error::Syntax(line_no));
    }
    let ghost psv = split_spec(rest_of(line@)).unwrap().0;
    let ghost junkv = split_spec(rest_of(line@)).unwrap().1;
    proof {
        assert(parts@.len() == psv.len());
        assert(forall|k: int| 0 <= k < psv.len() ==> (#[trigger] parts@[k])@ == psv[k]);
    }

    // the opcode: `raw HEX`, a mnemonic, or `call LABEL`
    let op = &parts[0];
    let call: bool;
    let opcode: u32;
    if op.len() >= 4 && op[0] == 'r' && op[1] == 'a' && op[2] == 'w' && op[3] == ' ' {
        let num = copy_chars(op, 4, op.len());
        opcode = match crate::escape::parse_u32(&num, 16) {
            Ok(v) => v,
            Err(_) => {
                return Err(Error::Overflow);
            },
        };
        call = false;
        proof {
            assert(num@ =~= psv[0].skip(4));
            assert(is_raw_op(psv[0]));
            assert(op_rel(psv[0], mnemonics@, call, opcode, pend_entries(*table)));
        }
    } else {
        let mn = mnemonic_by_name(mnemonics, op);
        match mn {
            Some(o) => {
                opcode = o;
                call = false;
                proof {
                    assert(!is_raw_op(psv[0]));
                    assert(op_rel(psv[0], mnemonics@, call, opcode, pend_entries(*table)));
                }
            },
            None => {
                if op.len() >= 5 && op[0] == 'c' && op[1] == 'a' && op[2] == 'l' && op[3] == 'l'
                    && op[4] == ' ' {
                    let nm_tok = copy_chars(op, 5, op.len());
                    let name = crate::escape::decode_label(&nm_tok);
                    let ghost pre = pend_entries(*table);
                    let idx = match lookup_or_insert(table, name) {
                        Ok(i) => i,
                        Err(e) => {
                            return Err(e);
                        },
                    };
                    proof {
                        lemma_label_bound_grow(lbl, count, pre, pend_entries(*table));
                    }
                    opcode = !idx;
                    call = true;
                    proof {
                        assert(sentinel(opcode) == idx) by (bit_vector)
                            requires
                                opcode == !idx,
                        ;
                        assert(nm_tok@ =~= psv[0].skip(5));
                        assert(!is_raw_op(psv[0]));
                        assert(is_call_op(psv[0]));
                        assert(op_rel(psv[0], mnemonics@, call, opcode, pend_entries(*table)));
                    }
                } else {
                    return Err(Error::Syntax(line_no));
                }
            },
        }
    }
    let ghost entries2 = pend_entries(*table);
    proof {
        assert(label_bound(lbl, count, entries2));
        assert(call_ok(call, opcode, entries2));
    }

    // the data pool starts with the raw junk bytes, if any
    let mut data: Vec<u8>;
    match junk {
        Some(j) => {
            let js = crate::text::chars_to_string(&j);
            match crate::text::b64_decode(js.as_str()) {
                Some(b) => {
                    data = b;
                    proof {
                        assert(junkv is Some);
                        assert(crate::text::b64e(data@) == junkv.unwrap());
                    }
                },
                None => {
                    return Err(Error::BadBase64(line_no));
                },
            }
        },
        None => {
            data = Vec::new();
        },
    }
    let ghost jb0 = data@;
    proof {
        assert(match junkv {
            Some(jt) => crate::text::b64e(jb0) == jt,
            None => jb0 == Seq::<u8>::empty(),
        });
        assert(data@.take(jb0.len() as int) =~= jb0);
    }

    // the operands
    let mut params: Vec<Parameter> = Vec::new();
    let mut pi: usize = 1;
    while pi < parts.len()
        invariant
            line@.len() > 0,
            1 <= pi <= parts@.len(),
            params@.len() == pi - 1,
            parts@.len() == psv.len(),
            forall|k: int| 0 <= k < psv.len() ==> (#[trigger] parts@[k])@ == psv[k],
            label_bound(lbl, count, pend_entries(*table)),
            call_ok(call, opcode, pend_entries(*table)),
            op_rel(psv[0], mnemonics@, call, opcode, pend_entries(*table)),
            forall|j: int|
                0 <= j < params@.len() ==> param_shape(
                    psv[j + 1],
                    #[trigger] params@[j],
                    pend_entries(*table),
                ),
            jb0.len() <= data@.len(),
            data@.take(jb0.len() as int) == jb0,
            match junkv {
                Some(jt) => crate::text::b64e(jb0) == jt,
                None => jb0 == Seq::<u8>::empty(),
            },
        decreases parts@.len() - pi,
    {
        let part = &parts[pi];
        proof {
            assert(part@ == psv[pi as int]);
        }
        let ghost data_pre = data@;
        if data.len() > u32::MAX as usize {
            return Err(Error::Overflow);
        }
        let ptr = data.len() as u32;
        if part.len() >= 1 && part[0] == '"' {
            if part.len() < 2 || part[part.len() - 1] != '"' {
                return Err(Error::Syntax(line_no));
            }
            let inner = copy_chars(part, 1, part.len() - 1);
            let units = match crate::escape::unescape_string(&inner) {
                Some(u) => u,
                None => {
                    return Err(Error::MalformedEscape(line_no));
                },
            };
            let payload = crate::text::encode_units(enc, &units);
            match crate::pool::encode_text_cell(&payload, &mut data) {
                Ok(()) => (),
                Err(e) => {
                    return Err(Error::Overflow);
                },
            }
            proof {
                assert(data@.take(jb0.len() as int) =~= jb0);
                assert(is_pool_token(psv[pi as int]));
                assert(param_shape(
                    psv[pi as int],
                    Parameter::DataPointer(ptr),
                    pend_entries(*table),
                ));
            }
            params.push(Parameter::DataPointer(ptr));
        } else if part.len() >= 1 && (part[0] == '=' || part[0] == '@') {
            if part[0] == '@' && part.len() >= 2 && part[1] == '"' {
                // a pre-aligned text cell: must already be word-sized
                if part.len() < 3 || part[part.len() - 1] != '"' {
                    return Err(Error::Syntax(line_no));
                }
                let inner = copy_chars(part, 2, part.len() - 1);
                let units = match crate::escape::unescape_string(&inner) {
                    Some(u) => u,
                    None => {
                        return Err(Error::MalformedEscape(line_no));
                    },
                };
                let payload = crate::text::encode_units(enc, &units);
                match crate::pool::encode_bytestring(0, &payload, &mut data) {
                    Ok(()) => (),
                    Err(e) => {
                        return Err(e);
                    },
                }
                proof {
                    assert(data@.take(jb0.len() as int) =~= jb0);
                    assert(is_pool_token(psv[pi as int]));
                    assert(param_shape(
                        psv[pi as int],
                        Parameter::DataPointer(ptr),
                        pend_entries(*table),
                    ));
                }
                params.push(Parameter::DataPointer(ptr));
            } else {
                let mut k: usize = 1;
                let mut type_: u32 = 0;
                if k < part.len() && part[k] == '=' {
                    type_ = 1;
                    k = k + 1;
                }
                let num: Vec<char>;
                let radix: u32;
                if part.len() > k && part[part.len() - 1] == 'h' {
                    num = copy_chars(part, k, part.len() - 1);
                    radix = 16;
                } else {
                    num = copy_chars(part, k, part.len());
                    radix = 10;
                }
                let v = match crate::escape::parse_u32(&num, radix) {
                    Ok(v) => v,
                    Err(_) => {
                        return Err(Error::Overflow);
                    },
                };
                let mut le: Vec<u8> = Vec::new();
                crate::words::push_u32_le(&mut le, v);
                match crate::pool::encode_bytestring(type_, &le, &mut data) {
                    Ok(()) => (),
                    Err(e) => {
                        return Err(e);
                    },
                }
                proof {
                    assert(data@.take(jb0.len() as int) =~= jb0);
                    assert(is_pool_token(psv[pi as int]));
                    assert(param_shape(
                        psv[pi as int],
                        Parameter::DataPointer(ptr),
                        pend_entries(*table),
                    ));
                }
                params.push(Parameter::DataPointer(ptr));
            }
        } else if part.len() >= 1 && part[0] == '[' {
            if part.len() < 2 || part[part.len() - 1] != ']' {
                return Err(Error::Syntax(line_no));
            }
            let inner = copy_chars(part, 1, part.len() - 1);
            let is_gd = inner.len() >= 12 && inner[0] == 'g' && inner[1] == 'l' && inner[2] == 'o'
                && inner[3] == 'b' && inner[4] == 'a' && inner[5] == 'l' && inner[6] == '_'
                && inner[7] == 'd' && inner[8] == 'a' && inner[9] == 't' && inner[10] == 'a'
                && inner[11] == '+';
            if is_gd {
                let num = copy_chars(&inner, 12, inner.len());
                let v = match crate::escape::parse_u32(&num, 10) {
                    Ok(v) => v,
                    Err(_) => {
                        return Err(Error::Overflow);
                    },
                };
                proof {
                    assert(inner@ =~= psv[pi as int].subrange(1, psv[pi as int].len() - 1));
                    assert(is_gd_token(psv[pi as int]));
                    assert(num@ =~= psv[pi as int].subrange(13, psv[pi as int].len() - 1));
                    assert(param_shape(
                        psv[pi as int],
                        Parameter::GlobalDataPointer(v),
                        pend_entries(*table),
                    ));
                }
                params.push(Parameter::GlobalDataPointer(v));
            } else {
                let name = crate::escape::decode_label(&inner);
                let ghost pre = pend_entries(*table);
                let idx = match lookup_or_insert(table, name) {
                    Ok(i) => i,
                    Err(e) => {
                        return Err(e);
                    },
                };
                proof {
                    lemma_label_bound_grow(lbl, count, pre, pend_entries(*table));
                }
                let ptr2 = !idx;
                proof {
                    assert(sentinel(ptr2) == idx) by (bit_vector)
                        requires
                            ptr2 == !idx,
                    ;
                    lemma_op_rel_grow(
                        psv[0],
                        mnemonics@,
                        call,
                        opcode,
                        pre,
                        pend_entries(*table),
                    );
                    assert forall|j: int|
                        0 <= j < params@.len() implies param_shape(
                        psv[j + 1],
                        #[trigger] params@[j],
                        pend_entries(*table),
                    ) by {
                        lemma_param_shape_grow(
                            psv[j + 1],
                            params@[j],
                            pre,
                            pend_entries(*table),
                        );
                    }
                    assert(inner@ =~= psv[pi as int].subrange(1, psv[pi as int].len() - 1));
                    assert(!is_gd_token(psv[pi as int]));
                    assert(param_shape(
                        psv[pi as int],
                        Parameter::ActionRef(ptr2),
                        pend_entries(*table),
                    ));
                }
                params.push(Parameter::ActionRef(ptr2));
            }
        } else {
            let v = match crate::escape::parse_u32(part, 16) {
                Ok(v) => v,
                Err(_) => {
                    return Err(Error::Overflow);
                },
            };
            proof {
                assert(param_shape(
                    psv[pi as int],
                    Parameter::Value(v),
                    pend_entries(*table),
                ));
            }
            params.push(Parameter::Value(v));
        }
        pi = pi + 1;
    }

    if params.len() > (u32::MAX / 12) as usize || data.len() > u32::MAX as usize {
        return Err(Error::Overflow);
    }
    let alen: u64 = 16 + 12 * (params.len() as u64) + (data.len() as u64);
    if alen > u32::MAX as u64 {
        return Err(Error::Overflow);
    }
    let act = Action { export, call, opcode, params, data };
    proof {
        assert(crate::stcm2::wf_action(act));
    }
    Ok(Some(act))
}

} // verus!

verus! {

/// An uppercase hex digit, as the optional address annotation uses.
pub open spec fn is_uhex(c: char) -> bool {
    ('0' <= c && c <= '9') || ('A' <= c && c <= 'F')
}

/// The run of spaces starting at `i`.
pub open spec fn spaces_from(s: Seq<char>, i: int) -> int
    decreases s.len() - i,
    when 0 <= i <= s.len()
{
    if i < s.len() && s[i] == ' ' {
        1 + spaces_from(s, i + 1)
    } else {
        0
    }
}

/// Strip the optional leading address annotation: six uppercase hex digits
/// followed by spaces, or just leading spaces, are removed; anything else
/// leaves the line unchanged.
pub open spec fn strip_addr_spec(s: Seq<char>) -> Seq<char> {
    if s.len() >= 7 && (forall|i: int| 0 <= i < 6 ==> is_uhex(#[trigger] s[i])) && s[6] == ' ' {
        s.skip(6 + spaces_from(s, 6))
    } else if s.len() >= 1 && s[0] == ' ' {
        s.skip(spaces_from(s, 0))
    } else {
        s
    }
}

proof fn lemma_spaces_from(s: Seq<char>, i: int)
    requires
        0 <= i <= s.len(),
    ensures
        0 <= spaces_from(s, i) <= s.len() - i,
        forall|q: int| i <= q < i + spaces_from(s, i) ==> s[q] == ' ',
        i + spaces_from(s, i) < s.len() ==> s[i + spaces_from(s, i)] != ' ',
    decreases s.len() - i,
{
    if i < s.len() && s[i] == ' ' {
        lemma_spaces_from(s, i + 1);
    }
}

/// Strip the optional leading address annotation.
pub fn strip_addr(v: &Vec<char>) -> (r: Vec<char>)
    ensures
        r@ == strip_addr_spec(v@),
{
    let n = v.len();
    let hex6 = n >= 7 && {
        let mut ok = true;
        let mut i: usize = 0;
        while i < 6
            invariant
                i <= 6,
                n >= 7,
                n == v@.len(),
                ok == (forall|q: int| 0 <= q < i ==> is_uhex(#[trigger] v@[q])),
            decreases 6 - i,
        {
            let c = v[i];
            if !(('0' <= c && c <= '9') || ('A' <= c && c <= 'F')) {
                ok = false;
            }
            i = i + 1;
        }
        ok
    } && v[6] == ' ';
    let start: usize;
    if hex6 {
        let mut p: usize = 6;
        while p < n && v[p] == ' '
            invariant
                6 <= p <= n,
                n == v@.len(),
                forall|q: int| 6 <= q < p ==> v@[q] == ' ',
            decreases n - p,
        {
            p = p + 1;
        }
        proof {
            lemma_spaces_from(v@, 6);
            if p < 6 + spaces_from(v@, 6) {
                assert(v@[p as int] == ' ');
                assert(false);
            }
            if 6 + spaces_from(v@, 6) < p {
                assert(v@[6 + spaces_from(v@, 6)] == ' ');
                assert(false);
            }
        }
        start = p;
    } else if n >= 1 && v[0] == ' ' {
        let mut p: usize = 0;
        while p < n && v[p] == ' '
            invariant
                p <= n,
                n == v@.len(),
                forall|q: int| 0 <= q < p ==> v@[q] == ' ',
            decreases n - p,
        {
            p = p + 1;
        }
        proof {
            lemma_spaces_from(v@, 0);
            if p < spaces_from(v@, 0) {
                assert(v@[p as int] == ' ');
                assert(false);
            }
            if spaces_from(v@, 0) < p {
                assert(v@[spaces_from(v@, 0)] == ' ');
                assert(false);
            }
        }
        start = p;
    } else {
        start = 0;
    }
    let out = copy_chars(v, start, n);
    proof {
        assert(out@ =~= strip_addr_spec(v@));
    }
    out
}

/// The byte of one ASCII char.
pub open spec fn ascii_b(c: char) -> u8 {
    c as u8
}

/// The ASCII bytes of an all-ASCII char sequence.
pub open spec fn ascii_of(s: Seq<char>) -> Seq<u8>
    decreases s.len(),
{
    if s.len() == 0 {
        seq![]
    } else {
        ascii_of(s.drop_last()).push(ascii_b(s.last()))
    }
}

pub proof fn lemma_ascii_of(s: Seq<char>)
    ensures
        ascii_of(s).len() == s.len(),
        forall|i: int| 0 <= i < s.len() ==> ascii_of(s)[i] == ascii_b(#[trigger] s[i]),
    decreases s.len(),
{
    if s.len() > 0 {
        lemma_ascii_of(s.drop_last());
        assert forall|i: int| 0 <= i < s.len() implies ascii_of(s)[i] == ascii_b(
            #[trigger] s[i],
        ) by {
            if i < s.len() - 1 {
                assert(s.drop_last()[i] == s[i]);
            }
        }
    }
}

pub open spec fn all_ascii(s: Seq<char>) -> bool {
    forall|i: int| 0 <= i < s.len() ==> ((#[trigger] s[i]) as u32) < 128
}

/// The tag the first line declares: `.tag "NAME"`, ASCII only.
pub open spec fn tag_spec(s: Seq<char>) -> Option<Seq<u8>> {
    if all_ascii(s) && s.len() >= 7 && s[0] == '.' && s[1] == 't' && s[2] == 'a' && s[3] == 'g'
        && s[4] == ' ' && s[5] == '"' && s[s.len() - 1] == '"' {
        Some(ascii_of(s.subrange(6, s.len() - 1)))
    } else {
        None
    }
}

/// The base64 text the second line declares: `.global_data B64`.
pub open spec fn gd_spec(s: Seq<char>) -> Option<Seq<char>> {
    if all_ascii(s) && s.len() >= 13 && s.take(13) == seq![
        '.',
        'g',
        'l',
        'o',
        'b',
        'a',
        'l',
        '_',
        'd',
        'a',
        't',
        'a',
        ' ',
    ] {
        Some(s.skip(13))
    } else {
        None
    }
}

/// The third line, exactly.
pub open spec fn code_start_line() -> Seq<char> {
    seq!['.', 'c', 'o', 'd', 'e', '_', 's', 't', 'a', 'r', 't']
}

/// Check a line for ASCII purity and return its bytes.
fn ascii_bytes(v: &Vec<char>) -> (r: Option<Vec<u8>>)
    ensures
        match r {
            Some(b) => all_ascii(v@) && b@ == ascii_of(v@),
            None => !all_ascii(v@),
        },
{
    let mut out: Vec<u8> = Vec::new();
    let mut i: usize = 0;
    while i < v.len()
        invariant
            i <= v@.len(),
            out@.len() == i,
            forall|q: int| 0 <= q < i ==> ((#[trigger] v@[q]) as u32) < 128,
            forall|q: int| 0 <= q < i ==> out@[q] == (#[trigger] v@[q]) as u8,
        decreases v@.len() - i,
    {
        let c = v[i];
        if c as u32 >= 128 {
            return None;
        }
        out.push(c as u8);
        i = i + 1;
    }
    proof {
        lemma_ascii_of(v@);
        assert forall|q: int| 0 <= q < v@.len() implies out@[q] == ascii_of(v@)[q] by {
            assert(ascii_of(v@)[q] == ascii_b(v@[q]));
        }
        assert(out@ =~= ascii_of(v@));
    }
    Some(out)
}

/// The filler word the tag family selects: tags beginning with `L` use one
/// sentinel, all others the other.
pub open spec fn filler_of(tag: Seq<u8>) -> u32 {
    if tag.len() >= 1 && tag[0] == 76 {
        crate::stcm2::FILLER_L
    } else {
        crate::stcm2::FILLER_OTHER
    }
}

/// Is this instruction line nonempty once its address annotation is
/// stripped? Kept opaque so whole-program reasoning stays cheap.
#[verifier::opaque]
pub open spec fn line_nonempty(l: Vec<char>) -> bool {
    strip_addr_spec(l@).len() > 0
}

/// The export this line's label dictates, if any; opaque likewise.
#[verifier::opaque]
pub open spec fn line_export(l: Vec<char>) -> Option<Seq<u8>> {
    export_of_line(strip_addr_spec(l@))
}

/// How many instruction lines among the first `i` are nonempty once their
/// address annotation is stripped: each becomes exactly one action.
pub open spec fn n_instr(lines: Seq<Vec<char>>, i: int) -> int
    decreases i,
{
    if i <= 3 {
        0
    } else {
        n_instr(lines, i - 1) + if line_nonempty(lines[i - 1]) {
            1int
        } else {
            0int
        }
    }
}

pub proof fn lemma_n_instr_monotone(lines: Seq<Vec<char>>, i: int, j: int)
    requires
        i <= j,
    ensures
        n_instr(lines, i) <= n_instr(lines, j),
    decreases j - i,
{
    if i < j {
        lemma_n_instr_monotone(lines, i, j - 1);
    }
}

/// Appending the action a nonempty line parsed to keeps the count and the
/// per-line export correspondence.
proof fn lemma_export_accum(lines: Seq<Vec<char>>, pre_acts: Seq<Action>, act: Action, li: int)
    requires
        3 <= li < lines.len(),
        line_nonempty(lines[li]),
        pre_acts.len() == n_instr(lines, li),
        forall|i: int|
            3 <= i < li && line_nonempty(#[trigger] lines[i]) ==> opt_bytes(
                pre_acts[n_instr(lines, i)].export,
            ) == line_export(lines[i]),
        opt_bytes(act.export) == line_export(lines[li]),
    ensures
        pre_acts.push(act).len() == n_instr(lines, li + 1),
        forall|i: int|
            3 <= i < li + 1 && line_nonempty(#[trigger] lines[i]) ==> opt_bytes(
                pre_acts.push(act)[n_instr(lines, i)].export,
            ) == line_export(lines[i]),
{
    assert(n_instr(lines, li + 1) == n_instr(lines, li) + 1);
    assert forall|i: int|
        3 <= i < li + 1 && line_nonempty(#[trigger] lines[i]) implies opt_bytes(
        pre_acts.push(act)[n_instr(lines, i)].export,
    ) == line_export(lines[i]) by {
        if i < li {
            assert(n_instr(lines, i + 1) == n_instr(lines, i) + 1);
            lemma_n_instr_monotone(lines, 3, i);
            lemma_n_instr_monotone(lines, i + 1, li);
            assert(0 <= n_instr(lines, i) < pre_acts.len());
            assert(pre_acts.push(act)[n_instr(lines, i)] == pre_acts[n_instr(lines, i)]);
        } else {
            assert(n_instr(lines, i) == pre_acts.len() as int);
            assert(pre_acts.push(act)[n_instr(lines, i)] == act);
        }
    }
}

/// Parse every instruction line into an index-space action, filling the
/// pending-reference table: one action per line that is nonempty once its
/// address annotation is stripped, each carrying exactly the export its
/// label dictates.
#[verifier::rlimit(100)]
fn parse_instructions(
    lines: &Vec<Vec<char>>,
    table: &mut indexmap::IndexMap<Vec<u8>, Option<u32>>,
    mnemonics: &Vec<(Vec<char>, u32)>,
    enc: crate::text::Encoding,
) -> (r: Result<Vec<Action>, Error>)
    requires
        lines@.len() >= 3,
    ensures
        match r {
            Ok(acts) => {
                &&& forall|t: int|
                    0 <= t < acts@.len() ==> crate::stcm2::wf_action(#[trigger] acts@[t])
                &&& acts@.len() == n_instr(lines@, lines@.len() as int)
                &&& forall|i: int|
                    3 <= i < lines@.len() && line_nonempty(#[trigger] lines@[i]) ==> opt_bytes(
                        acts@[n_instr(lines@, i)].export,
                    ) == line_export(lines@[i])
            },
            Err(e) => match e {
                Error::Syntax(i) => 3 <= i < lines@.len() && line_nonempty(lines@[i as int]),
                Error::MalformedEscape(i) => 3 <= i < lines@.len() && line_nonempty(
                    lines@[i as int],
                ),
                Error::BadBase64(i) => 3 <= i < lines@.len() && line_nonempty(lines@[i as int]),
                Error::Overflow => true,
                Error::BadCell => true,
                _ => false,
            },
        },
{
    let mut actions: Vec<Action> = Vec::new();
    let mut li: usize = 3;
    while li < lines.len()
        invariant
            3 <= li <= lines@.len(),
            lines@.len() >= 3,
            forall|t: int| 0 <= t < actions@.len() ==> crate::stcm2::wf_action(#[trigger] actions@[t]),
            actions@.len() == n_instr(lines@, li as int),
            forall|i: int|
                3 <= i < li && line_nonempty(#[trigger] lines@[i]) ==> opt_bytes(
                    actions@[n_instr(lines@, i)].export,
                ) == line_export(lines@[i]),
        decreases lines@.len() - li,
    {
        let stripped = strip_addr(&lines[li]);
        if actions.len() >= u32::MAX as usize {
            return Err(Error::Overflow);
        }
        let count = actions.len() as u32;
        let ghost pre_acts = actions@;
        proof {
            assert(pre_acts.len() == n_instr(lines@, li as int));
        }
        match parse_line(&stripped, li, count, table, mnemonics, enc) {
            Ok(Some(act)) => {
                proof {
                    reveal(line_nonempty);
                    reveal(line_export);
                    assert(line_nonempty(lines@[li as int]));
                    assert(opt_bytes(act.export) == line_export(lines@[li as int]));
                    lemma_export_accum(lines@, pre_acts, act, li as int);
                }
                actions.push(act);
                proof {
                    assert(actions@ == pre_acts.push(act));
                }
            },
            Ok(None) => {
                proof {
                    reveal(line_nonempty);
                    assert(!line_nonempty(lines@[li as int]));
                }
            },
            Err(e) => {
                proof {
                    reveal(line_nonempty);
                }
                return Err(e);
            },
        }
        li = li + 1;
    }
    Ok(actions)
}

/// Resolution and layout both keep every record serializable.
proof fn lemma_wf_resolved(
    acts0: Seq<Action>,
    acts1: Seq<Action>,
    entries: Seq<(Seq<u8>, Option<u32>)>,
)
    requires
        acts1.len() == acts0.len(),
        forall|t: int| 0 <= t < acts0.len() ==> crate::stcm2::wf_action(#[trigger] acts0[t]),
        forall|t: int|
            0 <= t < acts0.len() ==> resolved_act(#[trigger] acts0[t], acts1[t], entries),
    ensures
        forall|t: int| 0 <= t < acts1.len() ==> crate::stcm2::wf_action(#[trigger] acts1[t]),
{
    assert forall|t: int| 0 <= t < acts1.len() implies crate::stcm2::wf_action(
        #[trigger] acts1[t],
    ) by {
        assert(resolved_act(acts0[t], acts1[t], entries));
        assert(crate::stcm2::wf_action(acts0[t]));
        assert(crate::stcm2::action_len_spec(acts1[t]) == crate::stcm2::action_len_spec(acts0[t]));
        match acts1[t].export {
            Some(e) => {
                assert(opt_bytes(acts1[t].export) == opt_bytes(acts0[t].export));
                match acts0[t].export {
                    Some(e0) => {
                        assert(e@ == e0@);
                    },
                    None => {
                        assert(false);
                    },
                }
            },
            None => (),
        }
    }
}

proof fn lemma_wf_laid(acts1: Seq<Action>, laid: Seq<(u32, Action)>)
    requires
        laid.len() == acts1.len(),
        forall|t: int| 0 <= t < acts1.len() ==> crate::stcm2::wf_action(#[trigger] acts1[t]),
        forall|t: int| 0 <= t < acts1.len() ==> reloc_acted(acts1, t, #[trigger] laid[t]),
    ensures
        forall|t: int| 0 <= t < laid.len() ==> crate::stcm2::wf_action((#[trigger] laid[t]).1),
{
    assert forall|t: int| 0 <= t < laid.len() implies crate::stcm2::wf_action(
        (#[trigger] laid[t]).1,
    ) by {
        assert(reloc_acted(acts1, t, laid[t]));
        assert(crate::stcm2::wf_action(acts1[t]));
        assert(crate::stcm2::action_len_spec(laid[t].1) == crate::stcm2::action_len_spec(
            acts1[t],
        ));
        match laid[t].1.export {
            Some(e) => {
                assert(opt_bytes(laid[t].1.export) == opt_bytes(acts1[t].export));
                match acts1[t].export {
                    Some(e0) => {
                        assert(e@ == e0@);
                    },
                    None => {
                        assert(false);
                    },
                }
            },
            None => (),
        }
    }
}

/// Each line's export survives resolution and layout unchanged, so it can
/// be read off the final laid-out stream.
proof fn lemma_export_thread(
    lines: Seq<Vec<char>>,
    acts0: Seq<Action>,
    acts1: Seq<Action>,
    laid: Seq<(u32, Action)>,
    entries: Seq<(Seq<u8>, Option<u32>)>,
)
    requires
        acts0.len() == n_instr(lines, lines.len() as int),
        forall|i: int|
            3 <= i < lines.len() && line_nonempty(#[trigger] lines[i]) ==> opt_bytes(
                acts0[n_instr(lines, i)].export,
            ) == line_export(lines[i]),
        acts1.len() == acts0.len(),
        forall|t: int|
            0 <= t < acts0.len() ==> resolved_act(#[trigger] acts0[t], acts1[t], entries),
        laid.len() == acts1.len(),
        forall|t: int| 0 <= t < acts1.len() ==> reloc_acted(acts1, t, #[trigger] laid[t]),
    ensures
        forall|i: int|
            3 <= i < lines.len() && line_nonempty(#[trigger] lines[i]) ==> opt_bytes(
                laid[n_instr(lines, i)].1.export,
            ) == line_export(lines[i]),
{
    assert forall|i: int|
        3 <= i < lines.len() && line_nonempty(#[trigger] lines[i]) implies opt_bytes(
        laid[n_instr(lines, i)].1.export,
    ) == line_export(lines[i]) by {
        assert(n_instr(lines, i + 1) == n_instr(lines, i) + 1);
        lemma_n_instr_monotone(lines, 3, i);
        lemma_n_instr_monotone(lines, i + 1, lines.len() as int);
        let idx = n_instr(lines, i);
        assert(0 <= idx < acts0.len());
        assert(opt_bytes(acts0[idx].export) == line_export(lines[i]));
        assert(resolved_act(acts0[idx], acts1[idx], entries));
        assert(opt_bytes(acts1[idx].export) == opt_bytes(acts0[idx].export));
        assert(reloc_acted(acts1, idx, laid[idx]));
        assert(opt_bytes(laid[idx].1.export) == opt_bytes(acts1[idx].export));
    }
}

/// Assemble a whole text program into the binary file: parse the tag,
/// global-data and code-start headers, parse each instruction line into an
/// index-space action, resolve every pending reference, lay the stream out
/// in byte-offset space, and serialize.
#[verifier::rlimit(100)]
pub fn assemble(
    lines: &Vec<Vec<char>>,
    enc: crate::text::Encoding,
    mnemonics: &Vec<(Vec<char>, u32)>,
) -> (r: Result<Vec<u8>, Error>)
    ensures
        match r {
            Ok(bytes) => {
                &&& lines@.len() >= 3
                &&& exists|tagb: Seq<u8>, gd: Seq<u8>, acts: Seq<(u32, Action)>|
                    {
                        &&& tag_spec(strip_addr_spec((#[trigger] lines@[0])@)) == Some(tagb)
                        &&& tagb.len() <= STCM2_TAG_LENGTH
                        &&& gd_spec(strip_addr_spec(lines@[1]@)) == Some(crate::text::b64e(gd))
                        &&& strip_addr_spec(lines@[2]@) == code_start_line()
                        &&& ser_fits(acts, gd.len() as int)
                        &&& bytes@ == render_file(tagb, gd, acts, filler_of(tagb))
                        &&& acts.len() == n_instr(lines@, lines@.len() as int)
                        &&& forall|i: int|
                            3 <= i < lines@.len() && line_nonempty(#[trigger] lines@[i])
                                ==> opt_bytes(acts[n_instr(lines@, i)].1.export) == line_export(
                                lines@[i],
                            )
                    }
            },
            Err(e) => {
                &&& (e == Error::Syntax(0) ==> lines@.len() < 3 || tag_spec(
                    strip_addr_spec(lines@[0]@),
                ) is None || tag_spec(strip_addr_spec(lines@[0]@)).unwrap().len()
                    > STCM2_TAG_LENGTH)
                &&& (e == Error::Syntax(1) ==> gd_spec(strip_addr_spec(lines@[1]@)) is None)
                &&& (e == Error::BadBase64(1) ==> gd_spec(strip_addr_spec(lines@[1]@)) is Some
                    && forall|bs: Seq<u8>|
                    gd_spec(strip_addr_spec(lines@[1]@)).unwrap() != crate::text::b64e(bs))
                &&& (e == Error::Syntax(2) ==> strip_addr_spec(lines@[2]@) != code_start_line())
                &&& match e {
                    Error::Syntax(i) => 3 <= i ==> i < lines@.len() && line_nonempty(
                        lines@[i as int],
                    ),
                    Error::MalformedEscape(i) => 3 <= i ==> i < lines@.len() && line_nonempty(
                        lines@[i as int],
                    ),
                    Error::BadBase64(i) => 3 <= i ==> i < lines@.len() && line_nonempty(
                        lines@[i as int],
                    ),
                    _ => true,
                }
            },
        },
{
    if lines.len() < 3 {
        return Err(Error::Syntax(0));
    }
    let l0 = strip_addr(&lines[0]);
    let l0b = match ascii_bytes(&l0) {
        Some(b) => b,
        None => {
            return Err(Error::Syntax(0));
        },
    };
    let n0 = l0.len();
    if !(n0 >= 7 && l0[0] == '.' && l0[1] == 't' && l0[2] == 'a' && l0[3] == 'g' && l0[4] == ' '
        && l0[5] == '"' && l0[n0 - 1] == '"') {
        return Err(Error::Syntax(0));
    }
    proof {
        lemma_ascii_of(l0@);
    }
    let tag = crate::words::copy_range(&l0b, 6, n0 - 1);
    proof {
        let sub = l0@.subrange(6, l0@.len() - 1);
        lemma_ascii_of(sub);
        lemma_ascii_of(l0@);
        assert forall|q: int| 0 <= q < sub.len() implies ascii_of(sub)[q] == tag@[q] by {
            assert(ascii_of(sub)[q] == ascii_b(sub[q]));
            assert(sub[q] == l0@[6 + q]);
            assert(ascii_of(l0@)[6 + q] == ascii_b(l0@[6 + q]));
        }
        assert(tag@ =~= ascii_of(sub));
        assert(tag_spec(l0@) == Some(tag@));
    }
    if tag.len() > STCM2_TAG_LENGTH {
        return Err(Error::Syntax(0));
    }
    let filler: u32 = if tag.len() >= 1 && tag[0] == 76 {
        crate::stcm2::FILLER_L
    } else {
        crate::stcm2::FILLER_OTHER
    };
    proof {
        assert(filler == filler_of(tag@));
    }

    let l1 = strip_addr(&lines[1]);
    match ascii_bytes(&l1) {
        Some(_) => (),
        None => {
            return Err(Error::Syntax(1));
        },
    }
    let n1 = l1.len();
    if !(n1 >= 13 && l1[0] == '.' && l1[1] == 'g' && l1[2] == 'l' && l1[3] == 'o' && l1[4] == 'b'
        && l1[5] == 'a' && l1[6] == 'l' && l1[7] == '_' && l1[8] == 'd' && l1[9] == 'a' && l1[10]
        == 't' && l1[11] == 'a' && l1[12] == ' ') {
        return Err(Error::Syntax(1));
    }
    let gd_chars = copy_chars(&l1, 13, n1);
    proof {
        assert(l1@.take(13) =~= seq![
            '.',
            'g',
            'l',
            'o',
            'b',
            'a',
            'l',
            '_',
            'd',
            'a',
            't',
            'a',
            ' ',
        ]);
        assert(gd_chars@ =~= l1@.skip(13));
        assert(gd_spec(l1@) == Some(gd_chars@));
    }
    let gd_str = crate::text::chars_to_string(&gd_chars);
    let global_data = match crate::text::b64_decode(gd_str.as_str()) {
        Some(b) => b,
        None => {
            return Err(Error::BadBase64(1));
        },
    };

    let l2 = strip_addr(&lines[2]);
    let cs: Vec<char> = {
        let mut v: Vec<char> = Vec::new();
        v.push('.');
        v.push('c');
        v.push('o');
        v.push('d');
        v.push('e');
        v.push('_');
        v.push('s');
        v.push('t');
        v.push('a');
        v.push('r');
        v.push('t');
        v
    };
    proof {
        assert(cs@ =~= code_start_line());
    }
    if !chars_eq(&l2, &cs) {
        return Err(Error::Syntax(2));
    }

    // parse every instruction line in index space
    let mut table = crate::pend::pend_new();
    let actions = match parse_instructions(lines, &mut table, mnemonics, enc) {
        Ok(v) => v,
        Err(e) => {
            return Err(e);
        },
    };

    // resolve, lay out, serialize
    let ghost acts0 = actions@;
    let resolved = match resolve_actions(actions, &table) {
        Ok(v) => v,
        Err(e) => {
            return Err(e);
        },
    };
    proof {
        lemma_wf_resolved(acts0, resolved@, pend_entries(table));
    }
    let ghost acts1 = resolved@;
    let laid = match layout_actions(resolved) {
        Ok(v) => v,
        Err(e) => {
            return Err(e);
        },
    };
    proof {
        lemma_wf_laid(acts1, laid@);
        lemma_export_thread(lines@, acts0, acts1, laid@, pend_entries(table));
        assert(laid@.len() == n_instr(lines@, lines@.len() as int));
    }
    let out = match to_bytes(&tag, &global_data, &laid, filler) {
        Ok(v) => v,
        Err(e) => {
            return Err(e);
        },
    };
    proof {
        assert(tag_spec(strip_addr_spec(lines@[0]@)) == Some(tag@));
        assert(gd_spec(strip_addr_spec(lines@[1]@)) == Some(crate::text::b64e(global_data@)));
        assert(strip_addr_spec(lines@[2]@) == code_start_line());
    }
    Ok(out)
}

} // verus!

verus! {

/// An index-space reference made absolute, as serialization writes it.
pub open spec fn abs_param(p: Parameter, cb: int) -> Parameter {
    match p {
        Parameter::ActionRef(ptr) => Parameter::ActionRef((cb + ptr) as u32),
        _ => p,
    }
}

/// Each operand's twelve bytes sit at their own offset of the serialized
/// operand block.
pub proof fn lemma_ser_params_layout(ps: Seq<Parameter>, filler: u32, cb: int, da: int)
    ensures
        ser_params(ps, filler, cb, da).len() == 12 * ps.len(),
        forall|j: int|
            0 <= j < ps.len() ==> ser_params(ps, filler, cb, da).subrange(12 * j, 12 * j + 12)
                == ser_param(#[trigger] ps[j], filler, cb, da),
    decreases ps.len(),
{
    if ps.len() > 0 {
        lemma_ser_params_layout(ps.drop_last(), filler, cb, da);
        let whole = ser_params(ps, filler, cb, da);
        let head = ser_params(ps.drop_last(), filler, cb, da);
        let lastp = ser_param(ps.last(), filler, cb, da);
        assert(lastp.len() == 12);
        assert(whole == head + lastp);
        assert forall|j: int|
            0 <= j < ps.len() implies whole.subrange(12 * j, 12 * j + 12) == ser_param(
            #[trigger] ps[j],
            filler,
            cb,
            da,
        ) by {
            if j < ps.len() - 1 {
                assert(ps.drop_last()[j] == ps[j]);
                assert(whole.subrange(12 * j, 12 * j + 12) =~= head.subrange(
                    12 * j,
                    12 * j + 12,
                ));
            } else {
                assert(whole.subrange(12 * j, 12 * j + 12) =~= lastp);
            }
        }
    }
}

/// Reading back three serialized little-endian words.
#[verifier::spinoff_prover]
#[verifier::rlimit(100)]
proof fn lemma_three_words(d: Seq<u8>, base: int, x: u32, y: u32, z: u32)
    requires
        0 <= base,
        base + 12 <= d.len(),
        forall|t: int|
            0 <= t < 12 ==> d[base + t] == (#[trigger] (u32_le_bytes(x) + u32_le_bytes(y)
                + u32_le_bytes(z))[t]),
    ensures
        u32_at(d, base) == x,
        u32_at(d, base + 4) == y,
        u32_at(d, base + 8) == z,
{
    let w = u32_le_bytes(x) + u32_le_bytes(y) + u32_le_bytes(z);
    crate::words::lemma_u32_le_roundtrip(x);
    crate::words::lemma_u32_le_roundtrip(y);
    crate::words::lemma_u32_le_roundtrip(z);
    assert(w[0] == u32_le_bytes(x)[0] && w[1] == u32_le_bytes(x)[1] && w[2] == u32_le_bytes(x)[2]
        && w[3] == u32_le_bytes(x)[3]);
    assert(w[4] == u32_le_bytes(y)[0] && w[5] == u32_le_bytes(y)[1] && w[6] == u32_le_bytes(y)[2]
        && w[7] == u32_le_bytes(y)[3]);
    assert(w[8] == u32_le_bytes(z)[0] && w[9] == u32_le_bytes(z)[1] && w[10] == u32_le_bytes(z)[2]
        && w[11] == u32_le_bytes(z)[3]);
    assert(d[base] == w[0] && d[base + 1] == w[1] && d[base + 2] == w[2] && d[base + 3] == w[3]);
    assert(d[base + 4] == w[4] && d[base + 5] == w[5] && d[base + 6] == w[6] && d[base + 7]
        == w[7]);
    assert(d[base + 8] == w[8] && d[base + 9] == w[9] && d[base + 10] == w[10] && d[base + 11]
        == w[11]);
}

/// Serializing one laid-out record and classifying the bytes back recovers
/// the record exactly: the header words, every operand (made absolute, and
/// avoiding the format's inherent ambiguities), and the data pool. This is
/// the per-record half of the binary round trip.
#[verifier::rlimit(100)]
pub proof fn lemma_record_roundtrip(
    before: Seq<u8>,
    a: Action,
    filler: u32,
    cb: int,
    pos: int,
    after: Seq<u8>,
    glen: int,
)
    requires
        crate::stcm2::is_filler(filler),
        crate::stcm2::wf_action(a),
        0 <= pos,
        0 <= glen,
        before.len() == cb + pos,
        cb == GLOBAL_DATA_OFFSET + glen + 12,
        action_fits(a, cb, pos),
        cb + pos + action_len_spec(a) <= u32::MAX,
        forall|j: int|
            0 <= j < a.params@.len() ==> match #[trigger] a.params@[j] {
                Parameter::Value(v) => !(cb + pos + 16 + 12 * a.params@.len() <= v < cb + pos
                    + action_len_spec(a)) && !(GLOBAL_DATA_OFFSET <= v < GLOBAL_DATA_OFFSET + glen)
                    && v != ACTION_REF_MARKER,
                Parameter::DataPointer(off) => off < a.data@.len() && cb + pos + 16 + 12
                    * a.params@.len() + off != ACTION_REF_MARKER,
                Parameter::GlobalDataPointer(off) => off < glen && GLOBAL_DATA_OFFSET + off
                    != ACTION_REF_MARKER,
                Parameter::ActionRef(ptr) => true,
            },
    ensures
        ({
            let d = before + ser_action(a, filler, cb, pos) + after;
            let addr = cb + pos;
            let n = a.params@.len() as int;
            let da = addr + 16 + 12 * n;
            &&& u32_at(d, addr) == if a.call {
                1u32
            } else {
                0u32
            }
            &&& u32_at(d, addr + 4) == if a.call {
                (cb + a.opcode) as u32
            } else {
                a.opcode
            }
            &&& u32_at(d, addr + 8) as int == n
            &&& u32_at(d, addr + 12) as int == action_len_spec(a)
            &&& forall|j: int|
                0 <= j < n ==> crate::stcm2::classify_words(
                    u32_at(d, addr + 16 + 12 * j),
                    u32_at(d, addr + 16 + 12 * j + 4),
                    u32_at(d, addr + 16 + 12 * j + 8),
                    da as u32,
                    a.data@.len() as u32,
                    glen as u32,
                ) == Some(abs_param(#[trigger] a.params@[j], cb))
            &&& d.subrange(da, addr + action_len_spec(a)) == a.data@
        }),
{
    let d = before + ser_action(a, filler, cb, pos) + after;
    let addr = cb + pos;
    let n = a.params@.len() as int;
    let da = addr + 16 + 12 * n;
    let c = ser_action(a, filler, cb, pos);
    lemma_ser_params_layout(a.params@, filler, cb, da);
    assert(c.len() == action_len_spec(a));
    assert forall|i: int| 0 <= i < c.len() implies d[addr + i] == c[i] by {}
    crate::words::lemma_u32_le_roundtrip(
        if a.call {
            1u32
        } else {
            0u32
        },
    );
    crate::words::lemma_u32_le_roundtrip(
        if a.call {
            (cb + a.opcode) as u32
        } else {
            a.opcode
        },
    );
    crate::words::lemma_u32_le_roundtrip(a.params@.len() as u32);
    crate::words::lemma_u32_le_roundtrip(action_len_spec(a) as u32);
    assert(u32_at(d, addr) == if a.call {
        1u32
    } else {
        0u32
    });
    assert(u32_at(d, addr + 4) == if a.call {
        (cb + a.opcode) as u32
    } else {
        a.opcode
    });
    assert(u32_at(d, addr + 8) as int == n);
    assert(u32_at(d, addr + 12) as int == action_len_spec(a));

    let sp = ser_params(a.params@, filler, cb, da);
    assert forall|j: int|
        0 <= j < n implies crate::stcm2::classify_words(
        u32_at(d, addr + 16 + 12 * j),
        u32_at(d, addr + 16 + 12 * j + 4),
        u32_at(d, addr + 16 + 12 * j + 8),
        da as u32,
        a.data@.len() as u32,
        glen as u32,
    ) == Some(abs_param(a.params@[j], cb)) by {
        let pj = ser_param(a.params@[j], filler, cb, da);
        assert(sp.subrange(12 * j, 12 * j + 12) == pj);
        assert forall|t: int| 0 <= t < 12 implies d[addr + 16 + 12 * j + t] == pj[t] by {
            assert(c[16 + 12 * j + t] == sp[12 * j + t]);
            assert(sp[12 * j + t] == sp.subrange(12 * j, 12 * j + 12)[t]);
        }
        let base = addr + 16 + 12 * j;
        match a.params@[j] {
            Parameter::Value(v) => {
                lemma_three_words(d, base, v, filler, filler);
            },
            Parameter::DataPointer(off) => {
                lemma_three_words(d, base, (da + off) as u32, filler, filler);
            },
            Parameter::GlobalDataPointer(off) => {
                lemma_three_words(d, base, (GLOBAL_DATA_OFFSET + off) as u32, filler, filler);
            },
            Parameter::ActionRef(ptr) => {
                lemma_three_words(d, base, ACTION_REF_MARKER, (cb + ptr) as u32, filler);
            },
        }
    }
    assert(d.subrange(da, addr + action_len_spec(a)) =~= a.data@);
}

} // verus!
