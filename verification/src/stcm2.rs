//! The binary data model: operands, actions and the whole file, together
//! with the operand classification rules and the well-formedness invariants
//! of a decoded file.
use vstd::prelude::*;

use crate::words::u32_at;
use crate::Error;

verus! {

/// Byte length of the `STCM2` file magic.
pub const STCM2_MAGIC_LEN: usize = 5;

/// Byte width of the fixed tag field that follows the magic.
pub const STCM2_TAG_LENGTH: usize = 27;

/// Absolute file offset of the first global-data byte: magic, tag, the
/// 48-byte metadata block and the global-data section magic come before it.
pub const GLOBAL_DATA_OFFSET: usize = 92;

/// First word of an `ActionRef` operand's binary form.
pub const ACTION_REF_MARKER: u32 = 0xffffff41;

/// Filler word of the tag family whose tag begins with `L`.
pub const FILLER_L: u32 = 0x40000000;

/// Filler word of every other tag family.
pub const FILLER_OTHER: u32 = 0xff000000;

/// One operand of an action, in classified form.
#[derive(Clone, Copy, PartialEq, Eq, Structural, Debug)]
pub enum Parameter {
    /// A reference to another action's absolute byte address.
    ActionRef(u32),
    /// An offset into the owning action's private data pool.
    DataPointer(u32),
    /// A literal word.
    Value(u32),
    /// An offset into the file-level global data pool.
    GlobalDataPointer(u32),
}

/// Both filler sentinels are accepted wherever a filler word is expected,
/// whichever tag family wrote the file.
pub open spec fn is_filler(w: u32) -> bool {
    w == FILLER_L || w == FILLER_OTHER
}

/// The operand classification priority chain: `ActionRef` marker first, then
/// the owning action's data window, then the global pool window, else a
/// literal. `None` means the three words match no operand shape.
pub open spec fn classify_words(
    w0: u32,
    w1: u32,
    w2: u32,
    data_addr: u32,
    data_len: u32,
    global_data_len: u32,
) -> Option<Parameter> {
    if w0 == ACTION_REF_MARKER && is_filler(w2) {
        Some(Parameter::ActionRef(w1))
    } else if is_filler(w1) && is_filler(w2) {
        if data_addr <= w0 && w0 < data_addr + data_len {
            Some(Parameter::DataPointer((w0 - data_addr) as u32))
        } else if GLOBAL_DATA_OFFSET <= w0 && w0 < GLOBAL_DATA_OFFSET + global_data_len {
            Some(Parameter::GlobalDataPointer((w0 - GLOBAL_DATA_OFFSET) as u32))
        } else {
            Some(Parameter::Value(w0))
        }
    } else {
        None
    }
}

impl Parameter {
    /// Classify a raw 3-word operand against the owning action's data window
    /// and the global pool, by the strict priority chain of `classify_words`.
    pub fn parse(value: [u32; 3], data_addr: u32, data_len: u32, global_data_len: u32) -> (r:
        Result<Self, Error>)
        requires
            data_addr + data_len <= u32::MAX,
            GLOBAL_DATA_OFFSET + global_data_len <= u32::MAX,
        ensures
            match r {
                Ok(p) => classify_words(
                    value[0],
                    value[1],
                    value[2],
                    data_addr,
                    data_len,
                    global_data_len,
                ) == Some(p),
                Err(e) => e == Error::BadParameter && classify_words(
                    value[0],
                    value[1],
                    value[2],
                    data_addr,
                    data_len,
                    global_data_len,
                ) is None,
            },
    {
        let w0 = value[0];
        let w1 = value[1];
        let w2 = value[2];
        if w0 == ACTION_REF_MARKER && (w2 == FILLER_L || w2 == FILLER_OTHER) {
            Ok(Parameter::ActionRef(w1))
        } else if (w1 == FILLER_L || w1 == FILLER_OTHER) && (w2 == FILLER_L || w2
            == FILLER_OTHER) {
            if data_addr <= w0 && w0 < data_addr + data_len {
                Ok(Parameter::DataPointer(w0 - data_addr))
            } else if GLOBAL_DATA_OFFSET as u32 <= w0 && w0 < GLOBAL_DATA_OFFSET as u32
                + global_data_len {
                Ok(Parameter::GlobalDataPointer(w0 - GLOBAL_DATA_OFFSET as u32))
            } else {
                Ok(Parameter::Value(w0))
            }
        } else {
            Err(Error::BadParameter)
        }
    }
}

/// The three raw words an operand serializes to, given the file's filler
/// word and the absolute base addresses of the code section and of the
/// owning action's data pool.
pub open spec fn param_words(p: Parameter, filler: u32, data_addr: u32) -> Seq<u32> {
    match p {
        Parameter::Value(v) => seq![v, filler, filler],
        Parameter::ActionRef(addr) => seq![ACTION_REF_MARKER, addr, filler],
        Parameter::DataPointer(off) => seq![(data_addr + off) as u32, filler, filler],
        Parameter::GlobalDataPointer(off) => seq![
            (GLOBAL_DATA_OFFSET + off) as u32,
            filler,
            filler,
        ],
    }
}

/// Encoding an operand and classifying the words back recovers the operand,
/// as long as the operand avoids the format's inherent ambiguities: a
/// literal must not fall in either pointer window nor equal the `ActionRef`
/// marker, the pointer offsets must stay inside their windows, and the data
/// window must lie above the global one.
pub proof fn lemma_param_roundtrip(
    p: Parameter,
    filler: u32,
    data_addr: u32,
    data_len: u32,
    global_data_len: u32,
)
    requires
        is_filler(filler),
        data_addr + data_len <= u32::MAX,
        GLOBAL_DATA_OFFSET + global_data_len <= u32::MAX,
        GLOBAL_DATA_OFFSET + global_data_len <= data_addr,
        match p {
            Parameter::Value(v) => !(data_addr <= v < data_addr + data_len) && !(
            GLOBAL_DATA_OFFSET <= v < GLOBAL_DATA_OFFSET + global_data_len) && v
                != ACTION_REF_MARKER,
            Parameter::ActionRef(addr) => true,
            Parameter::DataPointer(off) => off < data_len && data_addr + off != ACTION_REF_MARKER,
            Parameter::GlobalDataPointer(off) => off < global_data_len && GLOBAL_DATA_OFFSET + off
                != ACTION_REF_MARKER,
        },
    ensures
        ({
            let w = param_words(p, filler, data_addr);
            classify_words(w[0], w[1], w[2], data_addr, data_len, global_data_len) == Some(p)
        }),
{
}

/// One bytecode record: an optional export name, an opcode or intra-stream
/// call target, the operand list, and the private trailing data pool.
#[derive(Clone, Debug)]
pub struct Action {
    /// The export name bound to this record's address, if any.
    pub export: Option<Vec<u8>>,
    /// True when `opcode` is the address of another action (a call).
    pub call: bool,
    /// Literal operation code, or the call target when `call` is set.
    pub opcode: u32,
    /// The classified operands.
    pub params: Vec<Parameter>,
    /// The raw private data pool.
    pub data: Vec<u8>,
}

/// Record byte length: fixed 16-byte header, 12 bytes per operand, then the
/// private data pool.
pub open spec fn action_len_spec(a: Action) -> int {
    16 + 12 * a.params.len() + a.data.len()
}

/// `s` with every trailing zero byte removed.
pub open spec fn trim_trailing_zeros(s: Seq<u8>) -> Seq<u8>
    decreases s.len(),
{
    if s.len() > 0 && s[s.len() - 1] == 0 {
        trim_trailing_zeros(s.drop_last())
    } else {
        s
    }
}

/// The index of the first zero byte of `s`, or its length if none.
pub open spec fn first_zero(s: Seq<u8>) -> int
    decreases s.len(),
{
    if s.len() == 0 {
        0
    } else if s[0] == 0 {
        0
    } else {
        1 + first_zero(s.drop_first())
    }
}

pub proof fn lemma_first_zero_bounds(s: Seq<u8>)
    ensures
        0 <= first_zero(s) <= s.len(),
        forall|i: int| 0 <= i < first_zero(s) ==> s[i] != 0,
        first_zero(s) < s.len() ==> s[first_zero(s)] == 0,
    decreases s.len(),
{
    if s.len() > 0 && s[0] != 0 {
        lemma_first_zero_bounds(s.drop_first());
        assert forall|i: int| 0 <= i < first_zero(s) implies s[i] != 0 by {
            if i > 0 {
                assert(s.drop_first()[i - 1] == s[i]);
            }
        }
    }
}

pub proof fn lemma_trim_trailing_zeros(s: Seq<u8>)
    ensures
        0 <= trim_trailing_zeros(s).len() <= s.len(),
        trim_trailing_zeros(s) == s.take(trim_trailing_zeros(s).len() as int),
        forall|i: int|
            trim_trailing_zeros(s).len() <= i < s.len() ==> s[i] == 0,
        trim_trailing_zeros(s).len() > 0 ==> s[trim_trailing_zeros(s).len() - 1] != 0,
    decreases s.len(),
{
    if s.len() > 0 && s[s.len() - 1] == 0 {
        lemma_trim_trailing_zeros(s.drop_last());
        let t = trim_trailing_zeros(s);
        assert(t == trim_trailing_zeros(s.drop_last()));
        assert(t == s.drop_last().take(t.len() as int));
        assert(t =~= s.take(t.len() as int));
        assert forall|i: int| t.len() <= i < s.len() implies s[i] == 0 by {
            if i < s.len() - 1 {
                assert(s.drop_last()[i] == s[i]);
            }
        }
        if t.len() > 0 {
            assert(s.drop_last()[t.len() - 1] != 0);
        }
    } else {
        assert(s =~= s.take(s.len() as int));
    }
}

/// What `Action::label` returns: with `junk` every trailing zero byte of the
/// export name is stripped; without it the name ends at its first zero byte.
pub open spec fn label_spec(a: Action, junk: bool) -> Option<Seq<u8>> {
    match a.export {
        Some(e) => if junk {
            Some(trim_trailing_zeros(e@))
        } else {
            Some(e@.take(first_zero(e@)))
        },
        None => None,
    }
}

impl Action {
    /// The record's printable label, if it is exported: the stored name with
    /// its zero padding stripped, whole-tail or first-zero depending on the
    /// junk-preservation mode.
    pub fn label(&self, junk: bool) -> (r: Option<Vec<u8>>)
        ensures
            match r {
                Some(l) => label_spec(*self, junk) == Some(l@),
                None => label_spec(*self, junk) is None,
            },
    {
        match &self.export {
            None => None,
            Some(e) => {
                if junk {
                    let mut end: usize = e.len();
                    proof {
                        lemma_trim_trailing_zeros(e@);
                        assert(e@.take(e@.len() as int) =~= e@);
                    }
                    while end > 0 && e[end - 1] == 0
                        invariant
                            end <= e.len(),
                            forall|i: int| end <= i < e@.len() ==> e@[i] == 0,
                            trim_trailing_zeros(e@) == trim_trailing_zeros(e@.take(end as int)),
                        decreases end,
                    {
                        proof {
                            assert(e@.take(end as int).drop_last() == e@.take(end - 1));
                        }
                        end = end - 1;
                    }
                    let mut out: Vec<u8> = Vec::new();
                    let mut i: usize = 0;
                    while i < end
                        invariant
                            i <= end,
                            end <= e.len(),
                            out@ == e@.take(i as int),
                        decreases end - i,
                    {
                        out.push(e[i]);
                        proof {
                            assert(e@.take(i + 1) == e@.take(i as int).push(e@[i as int]));
                        }
                        i = i + 1;
                    }
                    proof {
                        lemma_trim_trailing_zeros(e@);
                        assert(e@.take(end as int).len() == end);
                        if end > 0 {
                            assert(e@.take(end as int)[end - 1] == e@[end - 1]);
                        }
                        assert(trim_trailing_zeros(e@.take(end as int)) == e@.take(end as int));
                    }
                    Some(out)
                } else {
                    let mut pos: usize = 0;
                    proof {
                        lemma_first_zero_bounds(e@);
                    }
                    while pos < e.len() && e[pos] != 0
                        invariant
                            pos <= e.len(),
                            forall|i: int| 0 <= i < pos ==> e@[i] != 0,
                            pos <= first_zero(e@),
                        decreases e.len() - pos,
                    {
                        proof {
                            lemma_first_zero_bounds(e@);
                        }
                        pos = pos + 1;
                    }
                    proof {
                        lemma_first_zero_bounds(e@);
                        if pos < e@.len() {
                            assert(e@[pos as int] == 0);
                            assert(first_zero(e@) <= pos);
                        }
                    }
                    let mut out: Vec<u8> = Vec::new();
                    let mut i: usize = 0;
                    while i < pos
                        invariant
                            i <= pos,
                            pos <= e.len(),
                            out@ == e@.take(i as int),
                        decreases pos - i,
                    {
                        out.push(e[i]);
                        proof {
                            assert(e@.take(i + 1) == e@.take(i as int).push(e@[i as int]));
                        }
                        i = i + 1;
                    }
                    Some(out)
                }
            },
        }
    }

    /// Record byte length as stored in the file: 16 + 12 per operand + data.
    pub fn len(&self) -> (r: usize)
        requires
            action_len_spec(*self) <= u32::MAX,
            action_len_spec(*self) <= usize::MAX,
        ensures
            r == action_len_spec(*self),
    {
        16 + 12 * self.params.len() + self.data.len()
    }
}

/// A whole decoded file: the tag, the shared global data pool, and the
/// actions keyed by their absolute byte address, in address order. An
/// address here is deliberately the offset from the start of the whole
/// file, not from the code section: calls, references and the export
/// table all carry this absolute form on disk, so the model keeps it.
#[derive(Clone, Debug)]
pub struct Stcm2 {
    /// The fixed-width tag, zero padding included.
    pub tag: Vec<u8>,
    /// The file-level data pool every action may point into.
    pub global_data: Vec<u8>,
    /// The action stream: (absolute address, record) pairs, addresses
    /// strictly increasing and contiguous.
    pub actions: Vec<(u32, Action)>,
}

/// Bounds every serializable action obeys: the record length fits the
/// format's u32 length field and an export name fits its 32-byte field.
pub open spec fn wf_action(a: Action) -> bool {
    &&& action_len_spec(a) <= u32::MAX
    &&& match a.export {
        Some(e) => e.len() <= 32,
        None => true,
    }
}

/// The byte offset of the `i`-th action from the start of the code section:
/// the prefix sum of the record lengths before it.
pub open spec fn stream_off(acts: Seq<(u32, Action)>, i: int) -> int
    decreases i,
{
    if i <= 0 {
        0
    } else {
        stream_off(acts, i - 1) + action_len_spec(acts[i - 1].1)
    }
}

/// The absolute file offset where the code section starts: right after the
/// global pool and the code-start magic.
pub open spec fn code_base(global_data_len: int) -> int {
    GLOBAL_DATA_OFFSET + global_data_len + 12
}

/// The absolute address of the `i`-th action.
pub open spec fn action_addr(s: Stcm2, i: int) -> int {
    code_base(s.global_data.len() as int) + stream_off(s.actions@, i)
}

/// Well-formedness of a decoded file: the tag fills its fixed field, the
/// global pool is word-aligned, and the action stream is contiguous, each
/// record starting where the previous one ended.
pub open spec fn wf_stcm2(s: Stcm2) -> bool {
    &&& s.tag.len() == STCM2_TAG_LENGTH
    &&& s.global_data.len() % 4 == 0
    &&& GLOBAL_DATA_OFFSET + s.global_data.len() + 12 <= u32::MAX
    &&& forall|i: int| 0 <= i < s.actions.len() ==> wf_action(#[trigger] s.actions[i].1)
    &&& forall|i: int|
        0 <= i < s.actions.len() ==> (#[trigger] s.actions[i].0) as int == action_addr(s, i)
    &&& action_addr(s, s.actions@.len() as int) <= u32::MAX
}

/// Offsets grow strictly along the stream, so addresses are unique.
pub proof fn lemma_stream_off_monotone(acts: Seq<(u32, Action)>, i: int, j: int)
    requires
        0 <= i <= j <= acts.len(),
    ensures
        stream_off(acts, i) <= stream_off(acts, j),
        i < j ==> stream_off(acts, i) + 16 <= stream_off(acts, j),
    decreases j - i,
{
    if i < j {
        lemma_stream_off_monotone(acts, i, j - 1);
    }
}

/// A prefix of the stream keeps its offsets.
pub proof fn lemma_stream_off_push(acts: Seq<(u32, Action)>, x: (u32, Action), i: int)
    requires
        0 <= i <= acts.len(),
    ensures
        stream_off(acts.push(x), i) == stream_off(acts, i),
        stream_off(acts.push(x), acts.len() as int + 1) == stream_off(acts, acts.len() as int)
            + action_len_spec(x.1),
    decreases acts.len() + 1 - i,
{
    if i < acts.len() {
        lemma_stream_off_push(acts, x, i + 1);
    } else {
        assert(stream_off(acts.push(x), i) == stream_off(acts, i)) by {
            lemma_stream_off_eq(acts.push(x), acts, i);
        }
        assert(acts.push(x)[acts.len() as int].1 == x.1);
    }
}

/// Offsets only read the entries before `i`.
pub proof fn lemma_stream_off_eq(a: Seq<(u32, Action)>, b: Seq<(u32, Action)>, i: int)
    requires
        0 <= i <= a.len(),
        i <= b.len(),
        forall|j: int|
            0 <= j < i ==> action_len_spec(#[trigger] a[j].1) == action_len_spec(b[j].1),
    ensures
        stream_off(a, i) == stream_off(b, i),
    decreases i,
{
    if i > 0 {
        lemma_stream_off_eq(a, b, i - 1);
    }
}

/// The five byte strings that delimit the file's sections.
pub open spec fn stcm2_magic() -> Seq<u8> {
    seq![0x53u8, 0x54, 0x43, 0x4D, 0x32]
}

pub open spec fn global_data_magic() -> Seq<u8> {
    seq![0x47u8, 0x4C, 0x4F, 0x42, 0x41, 0x4C, 0x5F, 0x44, 0x41, 0x54, 0x41, 0x00]
}

pub open spec fn code_start_magic() -> Seq<u8> {
    seq![0x43u8, 0x4F, 0x44, 0x45, 0x5F, 0x53, 0x54, 0x41, 0x52, 0x54, 0x5F, 0x00]
}

pub open spec fn export_data_magic() -> Seq<u8> {
    seq![0x45u8, 0x58, 0x50, 0x4F, 0x52, 0x54, 0x5F, 0x44, 0x41, 0x54, 0x41, 0x00]
}

pub open spec fn collection_link_magic() -> Seq<u8> {
    seq![
        0x43u8,
        0x4F,
        0x4C,
        0x4C,
        0x45,
        0x43,
        0x54,
        0x49,
        0x4F,
        0x4E,
        0x5F,
        0x4C,
        0x49,
        0x4E,
        0x4B,
        0x00,
    ]
}

/// The section magics as byte vectors, for the codec to write and compare.
pub fn stcm2_magic_vec() -> (r: Vec<u8>)
    ensures
        r@ == stcm2_magic(),
{
    let mut v: Vec<u8> = Vec::new();
    v.push(0x53);
    v.push(0x54);
    v.push(0x43);
    v.push(0x4D);
    v.push(0x32);
    proof {
        assert(v@ =~= stcm2_magic());
    }
    v
}

pub fn global_data_magic_vec() -> (r: Vec<u8>)
    ensures
        r@ == global_data_magic(),
{
    let mut v: Vec<u8> = Vec::new();
    v.push(0x47);
    v.push(0x4C);
    v.push(0x4F);
    v.push(0x42);
    v.push(0x41);
    v.push(0x4C);
    v.push(0x5F);
    v.push(0x44);
    v.push(0x41);
    v.push(0x54);
    v.push(0x41);
    v.push(0x00);
    proof {
        assert(v@ =~= global_data_magic());
    }
    v
}

pub fn code_start_magic_vec() -> (r: Vec<u8>)
    ensures
        r@ == code_start_magic(),
{
    let mut v: Vec<u8> = Vec::new();
    v.push(0x43);
    v.push(0x4F);
    v.push(0x44);
    v.push(0x45);
    v.push(0x5F);
    v.push(0x53);
    v.push(0x54);
    v.push(0x41);
    v.push(0x52);
    v.push(0x54);
    v.push(0x5F);
    v.push(0x00);
    proof {
        assert(v@ =~= code_start_magic());
    }
    v
}

pub fn export_data_magic_vec() -> (r: Vec<u8>)
    ensures
        r@ == export_data_magic(),
{
    let mut v: Vec<u8> = Vec::new();
    v.push(0x45);
    v.push(0x58);
    v.push(0x50);
    v.push(0x4F);
    v.push(0x52);
    v.push(0x54);
    v.push(0x5F);
    v.push(0x44);
    v.push(0x41);
    v.push(0x54);
    v.push(0x41);
    v.push(0x00);
    proof {
        assert(v@ =~= export_data_magic());
    }
    v
}

pub fn collection_link_magic_vec() -> (r: Vec<u8>)
    ensures
        r@ == collection_link_magic(),
{
    let mut v: Vec<u8> = Vec::new();
    v.push(0x43);
    v.push(0x4F);
    v.push(0x4C);
    v.push(0x4C);
    v.push(0x45);
    v.push(0x43);
    v.push(0x54);
    v.push(0x49);
    v.push(0x4F);
    v.push(0x4E);
    v.push(0x5F);
    v.push(0x4C);
    v.push(0x49);
    v.push(0x4E);
    v.push(0x4B);
    v.push(0x00);
    proof {
        assert(v@ =~= collection_link_magic());
    }
    v
}

/// The record at absolute offset `addr` of the file reads back as `a`
/// (export aside, which the export table attaches separately).
pub open spec fn record_matches(d: Seq<u8>, addr: int, a: Action, glen: int) -> bool {
    let n = a.params.len() as int;
    &&& 0 <= addr
    &&& addr + action_len_spec(a) <= d.len()
    &&& u32_at(d, addr) == if a.call {
        1u32
    } else {
        0u32
    }
    &&& u32_at(d, addr + 4) == a.opcode
    &&& u32_at(d, addr + 8) as int == n
    &&& u32_at(d, addr + 12) as int == action_len_spec(a)
    &&& forall|j: int|
        0 <= j < n ==> crate::stcm2::classify_words(
            u32_at(d, addr + 16 + 12 * j),
            u32_at(d, addr + 16 + 12 * j + 4),
            u32_at(d, addr + 16 + 12 * j + 8),
            (addr + 16 + 12 * n) as u32,
            a.data.len() as u32,
            glen as u32,
        ) == Some(#[trigger] a.params[j])
    &&& a.data@ == d.subrange(addr + 16 + 12 * n, addr + action_len_spec(a))
}

/// A record match does not read the export name.
pub proof fn lemma_record_same(d: Seq<u8>, addr: int, a: Action, b: Action, glen: int)
    requires
        same_but_export(a, b),
        record_matches(d, addr, b, glen),
    ensures
        record_matches(d, addr, a, glen),
{
    assert(a.params@.len() == b.params@.len());
    assert(a.data@.len() == b.data@.len());
    assert forall|j: int| 0 <= j < a.params@.len() implies crate::stcm2::classify_words(
        u32_at(d, addr + 16 + 12 * j),
        u32_at(d, addr + 16 + 12 * j + 4),
        u32_at(d, addr + 16 + 12 * j + 8),
        (addr + 16 + 12 * a.params.len()) as u32,
        a.data.len() as u32,
        glen as u32,
    ) == Some(#[trigger] a.params[j]) by {
        assert(a.params@[j] == b.params@[j]);
    }
}

/// Copy an operand list.
pub fn copy_params(v: &Vec<Parameter>) -> (r: Vec<Parameter>)
    ensures
        r@ == v@,
{
    let mut out: Vec<Parameter> = Vec::new();
    let mut i: usize = 0;
    while i < v.len()
        invariant
            i <= v@.len(),
            out@ == v@.take(i as int),
        decreases v@.len() - i,
    {
        out.push(v[i]);
        proof {
            assert(v@.take(i + 1) =~= v@.take(i as int).push(v@[i as int]));
        }
        i = i + 1;
    }
    proof {
        assert(v@.take(v@.len() as int) =~= v@);
    }
    out
}

} // verus!

verus! {

/// The global pool's length: the least word-aligned split whose next
/// twelve bytes are the code-start magic, scanned exactly as the decoder
/// scans, or `None` when the scan runs out of room.
pub open spec fn gd_scan(d: Seq<u8>, g: int) -> Option<int>
    decreases d.len() - g,
    when 0 <= g && 92 + g <= d.len()
{
    if 92 + g + 12 <= d.len() && d.subrange(92 + g, 92 + g + 12) == code_start_magic() {
        Some(g)
    } else if d.len() - 92 - g < 4 {
        None
    } else {
        gd_scan(d, g + 4)
    }
}

/// Every operand of the record at `pos` matches a known operand shape.
pub open spec fn params_region_ok(d: Seq<u8>, pos: int, np: int, length: int, glen: int) -> bool {
    forall|j: int|
        #![trigger u32_at(d, pos + 16 + 12 * j)]
        0 <= j < np ==> crate::stcm2::classify_words(
            u32_at(d, pos + 16 + 12 * j),
            u32_at(d, pos + 16 + 12 * j + 4),
            u32_at(d, pos + 16 + 12 * j + 8),
            (pos + 16 + 12 * np) as u32,
            (length - 16 - 12 * np) as u32,
            glen as u32,
        ) is Some
}

/// Every record between `pos` and the export-section start passes the
/// decoder's checks: room for its header and body, a boolean call flag, a
/// length that covers its operands, and classifiable operands.
pub open spec fn records_ok(d: Seq<u8>, pos: int, es: int, glen: int) -> bool
    decreases (if pos < es {
        es - pos
    } else {
        0
    }),
    when 0 <= pos && es <= d.len()
{
    if pos >= es {
        true
    } else if d.len() - pos < 16 {
        false
    } else {
        let call = u32_at(d, pos);
        let np = u32_at(d, pos + 8) as int;
        let length = u32_at(d, pos + 12) as int;
        if length < 16 {
            false
        } else {
            &&& (call == 0 || call == 1)
            &&& 12 * np + 16 <= length
            &&& length <= d.len() - pos
            &&& params_region_ok(d, pos, np, length, glen)
            &&& records_ok(d, pos + u32_at(d, pos + 12), es, glen)
        }
    }
}

/// Where the record scan ends.
pub open spec fn scan_end(d: Seq<u8>, pos: int, es: int) -> int
    decreases (if pos < es {
        es - pos
    } else {
        0
    }),
    when 0 <= pos && es <= d.len()
{
    if pos >= es {
        pos
    } else if d.len() - pos < 16 {
        pos
    } else if u32_at(d, pos + 12) < 16 {
        pos
    } else {
        scan_end(d, pos + u32_at(d, pos + 12), es)
    }
}

/// Does the record walk from `pos` reach a record starting at `a`?
pub open spec fn addr_in_recs(d: Seq<u8>, pos: int, es: int, a: int) -> bool
    decreases (if pos < es {
        es - pos
    } else {
        0
    }),
    when 0 <= pos && es <= d.len()
{
    if pos >= es {
        false
    } else if d.len() - pos < 16 {
        false
    } else if u32_at(d, pos + 12) < 16 {
        false
    } else {
        a == pos || addr_in_recs(d, pos + u32_at(d, pos + 12), es, a)
    }
}

/// The export row at index `k` of the table at `eb`.
pub open spec fn row_addr(d: Seq<u8>, eb: int, k: int) -> u32 {
    u32_at(d, eb + 40 * k + 36)
}

/// Every export row fits the file, has a zero reserved word, names a
/// record of the stream, and no earlier row names the same address.
pub open spec fn export_row_ok(d: Seq<u8>, eb: int, k: int, cb: int, es: int) -> bool {
    &&& eb + 40 * k + 40 <= d.len()
    &&& u32_at(d, eb + 40 * k) == 0
    &&& addr_in_recs(d, cb, es, row_addr(d, eb, k) as int)
    &&& forall|k2: int| 0 <= k2 < k ==> #[trigger] row_addr(d, eb, k2) != row_addr(d, eb, k)
}

pub open spec fn exports_ok(d: Seq<u8>, eb: int, nexp: int, cb: int, es: int) -> bool {
    forall|k: int| 0 <= k < nexp ==> #[trigger] export_row_ok(d, eb, k, cb, es)
}

/// A file the decoder accepts: the magics in place, a least-split global
/// pool, a sound record stream running to the export section named by the
/// header word at offset 32, and a sound export table.
pub open spec fn decodes_ok(d: Seq<u8>) -> bool {
    &&& d.len() >= 104
    &&& d.subrange(0, 5) == stcm2_magic()
    &&& d.subrange(80, 92) == global_data_magic()
    &&& gd_scan(d, 0) is Some
    &&& {
        let g = gd_scan(d, 0).unwrap();
        let cb = code_base(g);
        let ea = u32_at(d, 32) as int;
        let se = scan_end(d, cb, ea - 12);
        &&& 12 <= ea <= d.len()
        &&& records_ok(d, cb, ea - 12, g)
        &&& se + 12 <= d.len()
        &&& d.subrange(se, se + 12) == export_data_magic()
        &&& exports_ok(d, se + 12, u32_at(d, 36) as int, cb, ea - 12)
    }
}

/// Find the stream position of the action at absolute address `addr`.
pub fn find_action(actions: &Vec<(u32, Action)>, addr: u32) -> (r: Option<usize>)
    ensures
        match r {
            Some(k) => k < actions@.len() && actions@[k as int].0 == addr,
            None => forall|i: int| 0 <= i < actions@.len() ==> (#[trigger] actions@[i]).0 != addr,
        },
{
    let mut k: usize = 0;
    while k < actions.len()
        invariant
            k <= actions@.len(),
            forall|i: int| 0 <= i < k ==> (#[trigger] actions@[i]).0 != addr,
        decreases actions@.len() - k,
    {
        if actions[k].0 == addr {
            return Some(k);
        }
        k = k + 1;
    }
    None
}

/// Everything of a record the export table does not touch.
pub open spec fn same_but_export(a: Action, b: Action) -> bool {
    a.call == b.call && a.opcode == b.opcode && a.params@ == b.params@ && a.data@ == b.data@
}

/// The record carries exactly these export name bytes.
pub open spec fn export_is(a: Action, s: Seq<u8>) -> bool {
    match a.export {
        Some(n) => n@ == s,
        None => false,
    }
}

/// Export-table entry `kk` is honoured: its reserved word is zero and some
/// action carries its address and name.
pub open spec fn entry_matched(d: Seq<u8>, eb: int, kk: int, acts: Seq<(u32, Action)>) -> bool {
    u32_at(d, eb + 40 * kk) == 0 && exists|i: int|
        0 <= i < acts.len() && (#[trigger] acts[i]).0 == u32_at(d, eb + 40 * kk + 36)
            && export_is(acts[i].1, d.subrange(eb + 40 * kk + 4, eb + 40 * kk + 36))
}

/// The action's export name comes from one of the first `nexp` entries.
pub open spec fn export_from_entry(d: Seq<u8>, eb: int, nexp: int, a: (u32, Action)) -> bool {
    exists|kk: int|
        #![trigger u32_at(d, eb + 40 * kk + 36)]
        0 <= kk < nexp && a.0 == u32_at(d, eb + 40 * kk + 36) && export_is(
            a.1,
            d.subrange(eb + 40 * kk + 4, eb + 40 * kk + 36),
        )
}

/// Attaching a name to an action that had none keeps every honoured entry
/// honoured.
pub proof fn lemma_entry_matched_update(
    d: Seq<u8>,
    eb: int,
    kk: int,
    pre: Seq<(u32, Action)>,
    idx: int,
    x: (u32, Action),
)
    requires
        entry_matched(d, eb, kk, pre),
        0 <= idx < pre.len(),
        pre[idx].1.export is None,
    ensures
        entry_matched(d, eb, kk, pre.update(idx, x)),
{
    let i = choose|i: int|
        0 <= i < pre.len() && (#[trigger] pre[i]).0 == u32_at(d, eb + 40 * kk + 36) && export_is(
            pre[i].1,
            d.subrange(eb + 40 * kk + 4, eb + 40 * kk + 36),
        );
    assert(i != idx);
    assert(pre.update(idx, x)[i] == pre[i]);
}

/// An entry among the first `k1` is among the first `k2` when `k1 <= k2`.
pub proof fn lemma_export_entry_mono(d: Seq<u8>, eb: int, k1: int, k2: int, a: (u32, Action))
    requires
        export_from_entry(d, eb, k1, a),
        k1 <= k2,
    ensures
        export_from_entry(d, eb, k2, a),
{
    let kk = choose|kk: int|
        #![trigger u32_at(d, eb + 40 * kk + 36)]
        0 <= kk < k1 && a.0 == u32_at(d, eb + 40 * kk + 36) && export_is(
            a.1,
            d.subrange(eb + 40 * kk + 4, eb + 40 * kk + 36),
        );
    assert(0 <= kk < k2 && a.0 == u32_at(d, eb + 40 * kk + 36) && export_is(
        a.1,
        d.subrange(eb + 40 * kk + 4, eb + 40 * kk + 36),
    ));
}

/// The record walk can only stop at decoded actions: any address the
/// file-level walk reaches is an address of the decoded stream.
pub proof fn lemma_walk_bwd(
    d: Seq<u8>,
    acts: Seq<(u32, Action)>,
    cb: int,
    es: int,
    i: int,
    a: int,
)
    requires
        0 <= i <= acts.len(),
        0 <= cb,
        es <= d.len(),
        forall|t: int|
            0 <= t < acts.len() ==> u32_at(d, (#[trigger] acts[t]).0 as int + 12) as int
                == action_len_spec(acts[t].1),
        forall|t: int|
            0 <= t < acts.len() ==> (#[trigger] acts[t]).0 as int == cb + stream_off(acts, t),
        cb + stream_off(acts, acts.len() as int) >= es,
        addr_in_recs(d, cb + stream_off(acts, i), es, a),
    ensures
        exists|t: int| i <= t < acts.len() && (#[trigger] acts[t]).0 as int == a,
    decreases acts.len() - i,
{
    let pos = cb + stream_off(acts, i);
    if i == acts.len() {
        assert(pos >= es);
        assert(!addr_in_recs(d, pos, es, a));
    } else {
        assert(acts[i].0 as int == pos);
        let alen = action_len_spec(acts[i].1);
        assert(u32_at(d, pos + 12) as int == alen);
        if pos >= es || d.len() - pos < 16 || u32_at(d, pos + 12) < 16 {
            assert(!addr_in_recs(d, pos, es, a));
        } else if a == pos {
            assert(acts[i].0 as int == a);
        } else {
            assert(addr_in_recs(d, pos + alen, es, a));
            assert(cb + stream_off(acts, i + 1) == pos + alen);
            lemma_walk_bwd(d, acts, cb, es, i + 1, a);
            let t = choose|t: int| i + 1 <= t < acts.len() && (#[trigger] acts[t]).0 as int == a;
            assert(i <= t < acts.len() && acts[t].0 as int == a);
        }
    }
}

/// The file-level export check implies the vector-level one: each row's
/// address, reached by the record walk, is a decoded action's address.
#[verifier::spinoff_prover]
#[verifier::rlimit(100)]
pub proof fn lemma_exports_to_rows(
    d: Seq<u8>,
    acts: Seq<(u32, Action)>,
    cb: int,
    es: int,
    eb: int,
    nexp: int,
)
    requires
        0 <= cb,
        es <= d.len(),
        forall|t: int|
            0 <= t < acts.len() ==> u32_at(d, (#[trigger] acts[t]).0 as int + 12) as int
                == action_len_spec(acts[t].1),
        forall|t: int|
            0 <= t < acts.len() ==> (#[trigger] acts[t]).0 as int == cb + stream_off(acts, t),
        cb + stream_off(acts, acts.len() as int) >= es,
        exports_ok(d, eb, nexp, cb, es),
    ensures
        rows_ok(d, eb, nexp, acts),
{
    assert forall|k: int| 0 <= k < nexp implies #[trigger] vec_row_ok(d, eb, k, acts) by {
        assert(export_row_ok(d, eb, k, cb, es));
        assert(stream_off(acts, 0) == 0);
        lemma_walk_bwd(d, acts, cb, es, 0, row_addr(d, eb, k) as int);
        let t = choose|t: int|
            0 <= t < acts.len() && (#[trigger] acts[t]).0 as int == row_addr(d, eb, k) as int;
        assert(acts[t].0 == row_addr(d, eb, k));
    }
}

/// Contiguous records have strictly increasing, hence distinct, addresses./// Contiguous records have strictly increasing, hence distinct, addresses.
pub proof fn lemma_distinct_addrs(acts: Seq<(u32, Action)>, cb: int)
    requires
        forall|t: int|
            0 <= t < acts.len() ==> (#[trigger] acts[t]).0 as int == cb + stream_off(acts, t),
    ensures
        forall|i1: int, i2: int|
            0 <= i1 < i2 < acts.len() ==> (#[trigger] acts[i1]).0 != (#[trigger] acts[i2]).0,
{
    assert forall|i1: int, i2: int|
        0 <= i1 < i2 < acts.len() implies (#[trigger] acts[i1]).0 != (#[trigger] acts[i2]).0 by {
        lemma_stream_off_monotone(acts, i1, i2);
    }
}

/// Walk the action stream from the code base to the export section start,/// Walk the action stream from the code base to the export section start,
/// validating each record's stored length against its recomputed layout and
/// classifying every operand.
#[verifier::rlimit(60)]
fn decode_records(file: &Vec<u8>, g: usize, export_start: usize) -> (r: Result<
    (Vec<(u32, Action)>, usize),
    Error,
>)
    requires
        file@.len() <= u32::MAX,
        code_base(g as int) <= file@.len(),
        export_start <= file@.len(),
    ensures
        match r {
            Ok((acts, pos)) => {
                let cb = code_base(g as int);
                &&& pos as int == cb + stream_off(acts@, acts@.len() as int)
                &&& pos >= export_start
                &&& pos <= file@.len()
                &&& records_ok(file@, cb, export_start as int, g as int)
                &&& pos as int == scan_end(file@, cb, export_start as int)
                &&& forall|i: int|
                    0 <= i < acts@.len() ==> (#[trigger] acts@[i]).0 as int == cb + stream_off(
                        acts@,
                        i,
                    )
                &&& forall|i: int| 0 <= i < acts@.len() ==> (#[trigger] acts@[i]).0 < export_start
                &&& forall|i: int|
                    0 <= i < acts@.len() ==> wf_action((#[trigger] acts@[i]).1) && acts@[
                        i
                    ].1.export is None
                &&& forall|i: int|
                    0 <= i < acts@.len() ==> record_matches(
                        file@,
                        (#[trigger] acts@[i]).0 as int,
                        acts@[i].1,
                        g as int,
                    )
            },
            Err(e) => (e == Error::Truncated || e == Error::LengthMismatch || e
                == Error::BadParameter) && !records_ok(
                file@,
                code_base(g as int),
                export_start as int,
                g as int,
            ),
        },
{
    let flen = file.len();
    let cb = 92 + g + 12;
    let mut actions: Vec<(u32, Action)> = Vec::new();
    let mut pos: usize = cb;

    while pos < export_start
        invariant
            flen == file@.len(),
            flen <= u32::MAX,
            export_start <= flen,
            cb == code_base(g as int),
            cb <= pos <= flen,
            g + 92 + 12 <= flen,
            pos as int == cb + stream_off(actions@, actions@.len() as int),
            records_ok(file@, cb as int, export_start as int, g as int) == records_ok(
                file@,
                pos as int,
                export_start as int,
                g as int,
            ),
            scan_end(file@, cb as int, export_start as int) == scan_end(
                file@,
                pos as int,
                export_start as int,
            ),
            forall|i: int|
                0 <= i < actions@.len() ==> (#[trigger] actions@[i]).0 as int == cb + stream_off(
                    actions@,
                    i,
                ),
            forall|i: int| 0 <= i < actions@.len() ==> (#[trigger] actions@[i]).0 < export_start,
            forall|i: int|
                0 <= i < actions@.len() ==> wf_action((#[trigger] actions@[i]).1) && actions@[
                    i
                ].1.export is None,
            forall|i: int|
                0 <= i < actions@.len() ==> record_matches(
                    file@,
                    (#[trigger] actions@[i]).0 as int,
                    actions@[i].1,
                    g as int,
                ),
        decreases flen - pos,
    {
        if flen - pos < 16 {
            proof {
                assert(!records_ok(file@, pos as int, export_start as int, g as int));
            }
            return Err(Error::Truncated);
        }
        let global_call = crate::words::read_u32_le(file, pos);
        let opcode = crate::words::read_u32_le(file, pos + 4);
        let nparams = crate::words::read_u32_le(file, pos + 8);
        let length = crate::words::read_u32_le(file, pos + 12);

        let call = if global_call == 0 {
            false
        } else if global_call == 1 {
            true
        } else {
            proof {
                assert(!records_ok(file@, pos as int, export_start as int, g as int));
            }
            return Err(Error::BadParameter);
        };
        if (nparams as u64) * 12 + 16 > length as u64 {
            proof {
                assert(!records_ok(file@, pos as int, export_start as int, g as int));
            }
            return Err(Error::LengthMismatch);
        }
        let nparams_us = nparams as usize;
        let length_us = length as usize;
        if flen - pos < length_us {
            proof {
                assert(!records_ok(file@, pos as int, export_start as int, g as int));
            }
            return Err(Error::Truncated);
        }
        let ndata = length - 16 - 12 * nparams;
        let data_start = pos + 16 + 12 * nparams_us;
        let data_addr = data_start as u32;

        let params = match read_params(file, pos, nparams_us, data_addr, ndata, g) {
            Ok(params) => params,
            Err(e) => {
                proof {
                    assert(!params_region_ok(
                        file@,
                        pos as int,
                        nparams as int,
                        length as int,
                        g as int,
                    ));
                    assert(!records_ok(file@, pos as int, export_start as int, g as int));
                }
                return Err(e);
            },
        };

        let data = crate::words::copy_range(file, data_start, pos + length_us);
        let act = Action { export: None, call, opcode, params, data };
        proof {
            assert(action_len_spec(act) == length);
            assert(record_matches(file@, pos as int, act, g as int));
        }
        let ghost pre = actions@;
        actions.push((pos as u32, act));
        proof {
            lemma_stream_off_push(pre, actions@[pre.len() as int], pre.len() as int);
            assert forall|i: int| 0 <= i < actions@.len() implies (#[trigger] actions@[i]).0 as int
                == cb + stream_off(actions@, i) by {
                lemma_stream_off_eq(actions@, pre, i);
            }
            assert(data_addr == pos + 16 + 12 * (nparams as int));
            assert(ndata == length - 16 - 12 * (nparams as int));
            assert forall|j: int|
                #![trigger u32_at(file@, pos + 16 + 12 * j)]
                0 <= j < nparams as int implies crate::stcm2::classify_words(
                u32_at(file@, pos + 16 + 12 * j),
                u32_at(file@, pos + 16 + 12 * j + 4),
                u32_at(file@, pos + 16 + 12 * j + 8),
                (pos + 16 + 12 * (nparams as int)) as u32,
                (length - 16 - 12 * (nparams as int)) as u32,
                g as u32,
            ) is Some by {
                assert(crate::stcm2::classify_words(
                    u32_at(file@, pos + 16 + 12 * j),
                    u32_at(file@, pos + 16 + 12 * j + 4),
                    u32_at(file@, pos + 16 + 12 * j + 8),
                    data_addr,
                    ndata,
                    g as u32,
                ) == Some(params@[j]));
            }
            assert(params_region_ok(file@, pos as int, nparams as int, length as int, g as int));
            assert(records_ok(file@, pos as int, export_start as int, g as int) == records_ok(
                file@,
                pos + length,
                export_start as int,
                g as int,
            ));
            assert(scan_end(file@, pos as int, export_start as int) == scan_end(
                file@,
                pos + length,
                export_start as int,
            ));
        }
        pos = pos + length_us;
    }
    Ok((actions, pos))
}

/// Read and classify one record's operand words.
fn read_params(
    file: &Vec<u8>,
    pos: usize,
    nparams: usize,
    data_addr: u32,
    ndata: u32,
    g: usize,
) -> (r: Result<Vec<Parameter>, Error>)
    requires
        file@.len() <= u32::MAX,
        pos + 16 + 12 * nparams <= file@.len(),
        data_addr == pos + 16 + 12 * nparams,
        data_addr + ndata <= file@.len(),
        GLOBAL_DATA_OFFSET + g <= file@.len(),
    ensures
        match r {
            Ok(params) => params@.len() == nparams && forall|t: int|
                0 <= t < nparams as int ==> classify_words(
                    u32_at(file@, pos + 16 + 12 * t),
                    u32_at(file@, pos + 16 + 12 * t + 4),
                    u32_at(file@, pos + 16 + 12 * t + 8),
                    data_addr,
                    ndata,
                    g as u32,
                ) == Some(#[trigger] params@[t]),
            Err(e) => e == Error::BadParameter && exists|j: int|
                #![trigger u32_at(file@, pos + 16 + 12 * j)]
                0 <= j < nparams as int && crate::stcm2::classify_words(
                    u32_at(file@, pos + 16 + 12 * j),
                    u32_at(file@, pos + 16 + 12 * j + 4),
                    u32_at(file@, pos + 16 + 12 * j + 8),
                    data_addr,
                    ndata,
                    g as u32,
                ) is None,
        },
{
    let mut params: Vec<Parameter> = Vec::new();
    let mut j: usize = 0;
    while j < nparams
        invariant
            file@.len() <= u32::MAX,
            pos + 16 + 12 * nparams <= file@.len(),
            data_addr == pos + 16 + 12 * nparams,
            data_addr + ndata <= file@.len(),
            GLOBAL_DATA_OFFSET + g <= file@.len(),
            j <= nparams,
            params@.len() == j,
            forall|t: int|
                0 <= t < j ==> classify_words(
                    u32_at(file@, pos + 16 + 12 * t),
                    u32_at(file@, pos + 16 + 12 * t + 4),
                    u32_at(file@, pos + 16 + 12 * t + 8),
                    data_addr,
                    ndata,
                    g as u32,
                ) == Some(#[trigger] params@[t]),
        decreases nparams - j,
    {
        let base = pos + 16 + 12 * j;
        let w0 = crate::words::read_u32_le(file, base);
        let w1 = crate::words::read_u32_le(file, base + 4);
        let w2 = crate::words::read_u32_le(file, base + 8);
        let p = match Parameter::parse([w0, w1, w2], data_addr, ndata, g as u32) {
            Ok(p) => p,
            Err(e) => {
                proof {
                    assert(crate::stcm2::classify_words(
                        u32_at(file@, pos + 16 + 12 * (j as int)),
                        u32_at(file@, pos + 16 + 12 * (j as int) + 4),
                        u32_at(file@, pos + 16 + 12 * (j as int) + 8),
                        data_addr,
                        ndata,
                        g as u32,
                    ) is None);
                }
                return Err(e);
            },
        };
        params.push(p);
        j = j + 1;
    }
    Ok(params)
}

/// Every export row fits the file, has a zero reserved word, names some
/// action of the stream, and repeats no earlier row's address.
pub open spec fn vec_row_ok(d: Seq<u8>, eb: int, k: int, acts: Seq<(u32, Action)>) -> bool {
    &&& eb + 40 * k + 40 <= d.len()
    &&& u32_at(d, eb + 40 * k) == 0
    &&& exists|i: int| 0 <= i < acts.len() && (#[trigger] acts[i]).0 == row_addr(d, eb, k)
    &&& forall|k2: int| 0 <= k2 < k ==> #[trigger] row_addr(d, eb, k2) != row_addr(d, eb, k)
}

pub open spec fn rows_ok(d: Seq<u8>, eb: int, nexp: int, acts: Seq<(u32, Action)>) -> bool {
    forall|k: int| 0 <= k < nexp ==> #[trigger] vec_row_ok(d, eb, k, acts)
}

/// Attach each export-table entry's name to the action at its address,
/// refusing unknown addresses and doubly claimed actions.
#[verifier::rlimit(60)]
fn attach_exports(
    actions: &mut Vec<(u32, Action)>,
    file: &Vec<u8>,
    eb: usize,
    export_len: u32,
) -> (r: Result<(), Error>)
    requires
        file@.len() <= u32::MAX,
        eb <= file@.len(),
        forall|i: int|
            0 <= i < old(actions)@.len() ==> (#[trigger] old(actions)@[i]).1.export is None,
        forall|i1: int, i2: int|
            0 <= i1 < i2 < old(actions)@.len() ==> (#[trigger] old(actions)@[i1]).0 != (
            #[trigger] old(actions)@[i2]).0,
    ensures
        match r {
            Ok(()) => {
                let acts = final(actions)@;
                let pre = old(actions)@;
                &&& acts.len() == pre.len()
                &&& forall|k1: int, k2: int|
                    0 <= k1 < k2 < export_len ==> row_addr(file@, eb as int, k1) != row_addr(
                        file@,
                        eb as int,
                        k2,
                    )
                &&& forall|i: int|
                    0 <= i < acts.len() ==> (#[trigger] acts[i]).0 == pre[i].0 && same_but_export(
                        acts[i].1,
                        pre[i].1,
                    )
                &&& forall|i: int|
                    0 <= i < acts.len() ==> match (#[trigger] acts[i]).1.export {
                        None => true,
                        Some(n) => n@.len() == 32,
                    }
                &&& forall|kk: int|
                    0 <= kk < export_len ==> entry_matched(
                        file@,
                        eb as int,
                        kk,
                        acts,
                    )
                &&& forall|i: int|
                    0 <= i < acts.len() && (#[trigger] acts[i]).1.export is Some
                        ==> export_from_entry(file@, eb as int, export_len as int, acts[i])
            },
            Err(e) => (e == Error::Truncated || e == Error::BadMagic || e
                == Error::UnknownExport || e == Error::DuplicateExport) && !rows_ok(
                file@,
                eb as int,
                export_len as int,
                old(actions)@,
            ),
        },
{
    let flen = file.len();
    let ghost decoded = actions@;
    let mut pos2: usize = eb;
    let mut k: usize = 0;
    while k < export_len as usize
        invariant
            flen == file@.len(),
            flen <= u32::MAX,
            k <= export_len,
            pos2 == eb + 40 * k,
            eb <= flen,
            pos2 <= flen || k == 0,
            decoded == old(actions)@,
            actions@.len() == decoded.len(),
            forall|i: int|
                0 <= i < decoded.len() ==> (#[trigger] decoded[i]).1.export is None,
            forall|i: int|
                0 <= i < actions@.len() ==> (#[trigger] actions@[i]).0 == decoded[i].0
                    && same_but_export(actions@[i].1, decoded[i].1),
            forall|i: int|
                0 <= i < actions@.len() ==> match (#[trigger] actions@[i]).1.export {
                    None => true,
                    Some(n) => n@.len() == 32,
                },
            forall|i1: int, i2: int|
                0 <= i1 < i2 < actions@.len() ==> (#[trigger] actions@[i1]).0 != (
                #[trigger] actions@[i2]).0,
            forall|kk: int| 0 <= kk < k ==> entry_matched(file@, eb as int, kk, actions@),
            forall|k1: int, k2: int|
                0 <= k1 < k2 < k ==> row_addr(file@, eb as int, k1) != row_addr(
                    file@,
                    eb as int,
                    k2,
                ),
            forall|i: int|
                0 <= i < actions@.len() && (#[trigger] actions@[i]).1.export is Some
                    ==> export_from_entry(file@, eb as int, k as int, actions@[i]),
        decreases export_len - k,
    {
        if pos2 > flen || flen - pos2 < 40 {
            proof {
                assert(!(eb + 40 * (k as int) + 40 <= file@.len()));
                assert(!vec_row_ok(file@, eb as int, k as int, decoded));
                assert(!rows_ok(file@, eb as int, export_len as int, decoded));
            }
            return Err(Error::Truncated);
        }
        let reserved = crate::words::read_u32_le(file, pos2);
        if reserved != 0 {
            proof {
                assert(u32_at(file@, eb + 40 * (k as int)) != 0);
                assert(!vec_row_ok(file@, eb as int, k as int, decoded));
                assert(!rows_ok(file@, eb as int, export_len as int, decoded));
            }
            return Err(Error::BadMagic);
        }
        let name = crate::words::copy_range(file, pos2 + 4, pos2 + 36);
        let addr = crate::words::read_u32_le(file, pos2 + 36);
        let idx = match find_action(actions, addr) {
            Some(idx) => idx,
            None => {
                proof {
                    assert(addr == row_addr(file@, eb as int, k as int));
                    assert forall|i: int|
                        0 <= i < decoded.len() implies (#[trigger] decoded[i]).0 != addr by {
                        assert(actions@[i].0 == decoded[i].0);
                    }
                    assert(!vec_row_ok(file@, eb as int, k as int, decoded));
                    assert(!rows_ok(file@, eb as int, export_len as int, decoded));
                }
                return Err(Error::UnknownExport);
            },
        };
        let ghost pre = actions@;
        let (a_addr, mut act) = actions.remove(idx);
        if act.export.is_some() {
            proof {
                // the target was already claimed: some earlier row names it
                assert(pre[idx as int].1.export is Some);
                assert(export_from_entry(file@, eb as int, k as int, pre[idx as int]));
                let kk = choose|kk: int|
                    #![trigger u32_at(file@, eb as int + 40 * kk + 36)]
                    0 <= kk < k && pre[idx as int].0 == u32_at(file@, eb as int + 40 * kk + 36)
                        && export_is(
                        pre[idx as int].1,
                        file@.subrange(
                            eb as int + 40 * kk + 4,
                            eb as int + 40 * kk + 36,
                        ),
                    );
                assert(row_addr(file@, eb as int, kk) == addr);
                assert(row_addr(file@, eb as int, k as int) == addr);
                assert(!vec_row_ok(file@, eb as int, k as int, decoded));
                assert(!rows_ok(file@, eb as int, export_len as int, decoded));
            }
            return Err(Error::DuplicateExport);
        }
        act.export = Some(name);
        proof {
            assert(same_but_export(act, pre[idx as int].1));
        }
        actions.insert(idx, (a_addr, act));
        proof {
            assert(actions@ =~= pre.update(idx as int, (a_addr, act)));
            assert forall|kk: int| 0 <= kk < k + 1 implies entry_matched(
                file@,
                eb as int,
                kk,
                actions@,
            ) by {
                if kk < k {
                    lemma_entry_matched_update(
                        file@,
                        eb as int,
                        kk,
                        pre,
                        idx as int,
                        (a_addr, act),
                    );
                } else {
                    assert(u32_at(file@, eb + 40 * kk) == reserved);
                    assert(actions@[idx as int].0 == u32_at(file@, eb + 40 * kk + 36));
                    assert(export_is(
                        actions@[idx as int].1,
                        file@.subrange(eb + 40 * kk + 4, eb + 40 * kk + 36),
                    ));
                }
            }
            assert forall|i: int|
                0 <= i < actions@.len() && (#[trigger] actions@[i]).1.export is Some
                    implies export_from_entry(file@, eb as int, k + 1, actions@[i]) by {
                if i == idx {
                    let kk = k as int;
                    assert(actions@[i].0 == u32_at(file@, eb + 40 * kk + 36));
                    assert(export_is(
                        actions@[i].1,
                        file@.subrange(eb + 40 * kk + 4, eb + 40 * kk + 36),
                    ));
                } else {
                    assert(actions@[i] == pre[i]);
                    lemma_export_entry_mono(file@, eb as int, k as int, k + 1, actions@[i]);
                }
            }
            // no earlier row can share this row's address: its target was
            // still unnamed, while every earlier row's target is named
            assert forall|k1: int, k2: int|
                0 <= k1 < k2 < k + 1 implies row_addr(file@, eb as int, k1) != row_addr(
                file@,
                eb as int,
                k2,
            ) by {
                if k2 == k {
                    if row_addr(file@, eb as int, k1) == row_addr(file@, eb as int, k2) {
                        assert(entry_matched(file@, eb as int, k1, pre));
                        let i1 = choose|i1: int|
                            0 <= i1 < pre.len() && (#[trigger] pre[i1]).0 == u32_at(
                                file@,
                                eb as int + 40 * k1 + 36,
                            ) && export_is(
                                pre[i1].1,
                                file@.subrange(
                                    eb as int + 40 * k1 + 4,
                                    eb as int + 40 * k1 + 36,
                                ),
                            );
                        assert(pre[i1].0 == addr);
                        assert(pre[idx as int].0 == addr);
                        assert(pre[i1].0 == decoded[i1].0 && pre[idx as int].0 == decoded[
                            idx as int
                        ].0);
                        assert(i1 == idx);
                        assert(false);
                    }
                }
            }
        }
        pos2 = pos2 + 40;
        k = k + 1;
    }
    Ok(())
}

/// Decode a whole binary file: validate every section magic, walk the
/// action stream validating each record's stored length against its layout,
/// classify every operand, and attach the export table's names. The
/// returned file is well formed, every piece of it is pinned to the bytes
/// it was read from, the global pool is the least word-aligned split, the
/// export rows name pairwise distinct addresses, and every file that
/// passes the spec-level checks (`decodes_ok`) is accepted.
#[verifier::rlimit(100)]
pub fn from_bytes(file: Vec<u8>) -> (r: Result<Stcm2, Error>)
    requires
        file@.len() <= u32::MAX,
    ensures
        decodes_ok(file@) ==> r is Ok,
        match r {
            Ok(s) => {
                let g = s.global_data@.len() as int;
                let cb = code_base(g);
                let eb = cb + stream_off(s.actions@, s.actions@.len() as int) + 12;
                let nexp = u32_at(file@, 36) as int;
                &&& wf_stcm2(s)
                &&& file@.len() >= 104
                &&& file@.subrange(0, 5) == stcm2_magic()
                &&& s.tag@ == file@.subrange(5, 32)
                &&& file@.subrange(80, 92) == global_data_magic()
                &&& gd_scan(file@, 0) == Some(g)
                &&& s.global_data@ == file@.subrange(92, 92 + g)
                &&& file@.subrange(92 + g, cb) == code_start_magic()
                &&& forall|i: int|
                    0 <= i < s.actions@.len() ==> record_matches(
                        file@,
                        (#[trigger] s.actions@[i]).0 as int,
                        s.actions@[i].1,
                        g,
                    )
                &&& file@.subrange(eb - 12, eb) == export_data_magic()
                &&& forall|k: int| 0 <= k < nexp ==> entry_matched(file@, eb, k, s.actions@)
                &&& forall|k1: int, k2: int|
                    0 <= k1 < k2 < nexp ==> row_addr(file@, eb, k1) != row_addr(file@, eb, k2)
                &&& forall|i: int|
                    0 <= i < s.actions@.len() && (#[trigger] s.actions@[i]).1.export is Some
                        ==> export_from_entry(file@, eb, nexp, s.actions@[i])
            },
            Err(e) => e == Error::BadMagic || e == Error::Truncated || e == Error::LengthMismatch
                || e == Error::BadParameter || e == Error::UnknownExport
                || e == Error::DuplicateExport,
        },
{
    let flen = file.len();
    if flen < 104 {
        proof {
            assert(!decodes_ok(file@));
        }
        return Err(Error::Truncated);
    }
    let m_stcm2 = stcm2_magic_vec();
    if !crate::words::bytes_at_eq(&file, 0, &m_stcm2) {
        proof {
            assert(!decodes_ok(file@));
        }
        return Err(Error::BadMagic);
    }
    let tag = crate::words::copy_range(&file, 5, 32);
    let export_addr = crate::words::read_u32_le(&file, 32);
    let export_len = crate::words::read_u32_le(&file, 36);
    let m_global = global_data_magic_vec();
    if !crate::words::bytes_at_eq(&file, 80, &m_global) {
        proof {
            assert(!decodes_ok(file@));
        }
        return Err(Error::BadMagic);
    }

    // the global pool runs to the next section magic, scanned in word steps
    let m_code = code_start_magic_vec();
    let mut g: usize = 0;
    while !crate::words::bytes_at_eq(&file, 92 + g, &m_code)
        invariant
            flen == file@.len(),
            flen <= u32::MAX,
            g % 4 == 0,
            92 + g <= flen,
            m_code@ == code_start_magic(),
            gd_scan(file@, 0) == gd_scan(file@, g as int),
        decreases flen - g,
    {
        if flen - 92 - g < 4 {
            proof {
                assert(gd_scan(file@, g as int) is None);
                assert(!decodes_ok(file@));
            }
            return Err(Error::BadMagic);
        }
        g = g + 4;
    }
    proof {
        assert(92 + g + 12 <= flen);
        assert(gd_scan(file@, g as int) == Some(g as int));
        assert(gd_scan(file@, 0) == Some(g as int));
    }
    let global_data = crate::words::copy_range(&file, 92, 92 + g);

    if export_addr < 12 || export_addr as usize > flen {
        proof {
            assert(u32_at(file@, 32) == export_addr);
            assert(!decodes_ok(file@));
        }
        return Err(Error::LengthMismatch);
    }
    let export_start = export_addr as usize - 12;

    let (mut actions, pos) = match decode_records(&file, g, export_start) {
        Ok(x) => x,
        Err(e) => {
            proof {
                assert(!records_ok(file@, code_base(g as int), export_start as int, g as int));
                assert(!decodes_ok(file@));
            }
            return Err(e);
        },
    };

    let m_export = export_data_magic_vec();
    if !crate::words::bytes_at_eq(&file, pos, &m_export) {
        proof {
            assert(pos as int == scan_end(file@, code_base(g as int), export_start as int));
            assert(!decodes_ok(file@));
        }
        return Err(Error::BadMagic);
    }
    let ghost decoded = actions@;
    let ghost cb = code_base(g as int);
    proof {
        lemma_distinct_addrs(decoded, cb);
    }
    match attach_exports(&mut actions, &file, pos + 12, export_len) {
        Ok(()) => (),
        Err(e) => {
            proof {
                assert(!rows_ok(file@, pos + 12, export_len as int, decoded));
                assert(!decodes_ok(file@)) by {
                    if decodes_ok(file@) {
                        assert(exports_ok(
                            file@,
                            scan_end(file@, cb, export_start as int) + 12,
                            u32_at(file@, 36) as int,
                            cb,
                            export_start as int,
                        ));
                        assert forall|t: int|
                            0 <= t < decoded.len() implies u32_at(
                            file@,
                            (#[trigger] decoded[t]).0 as int + 12,
                        ) as int == action_len_spec(decoded[t].1) by {
                            assert(record_matches(
                                file@,
                                decoded[t].0 as int,
                                decoded[t].1,
                                g as int,
                            ));
                        }
                        lemma_exports_to_rows(
                            file@,
                            decoded,
                            cb,
                            export_start as int,
                            pos + 12,
                            export_len as int,
                        );
                        assert(false);
                    }
                }
            }
            return Err(e);
        },
    }

    proof {
        assert forall|i: int| 0 <= i < actions@.len() implies (#[trigger] actions@[i]).0 as int
            == cb + stream_off(actions@, i) && wf_action(actions@[i].1) && record_matches(
            file@,
            actions@[i].0 as int,
            actions@[i].1,
            g as int,
        ) by {
            assert(same_but_export(actions@[i].1, decoded[i].1));
            assert(actions@[i].1.params@.len() == decoded[i].1.params@.len());
            assert(actions@[i].1.data@.len() == decoded[i].1.data@.len());
            lemma_stream_off_eq(actions@, decoded, i);
            lemma_record_same(file@, decoded[i].0 as int, actions@[i].1, decoded[i].1, g as int);
        }
        lemma_stream_off_eq(actions@, decoded, actions@.len() as int);
    }

    let s = Stcm2 { tag, global_data, actions };
    proof {
        assert(wf_stcm2(s));
        assert(file@.subrange(92 + g, cb as int) =~= code_start_magic());
    }
    Ok(s)
}

} // verus!
