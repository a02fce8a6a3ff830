//! Conversion of DTrace aggregated-stack output to SPAA records.
use std::collections::hash_map::DefaultHasher;
use std::hash::Hasher;
use vstd::prelude::*;
use vstd::string::{StrSliceExecFns, StringExecFns};
use crate::spaa::{
    event_json, weight_list_json, EventDef, EventKind, Sampling, SamplingMode, SourceInfo, Weight,
    push_weights,
};
use crate::text::{
    bool_json, decimal_u64, find_char, hex_u64, hex_u64_text, json_quoted, nat_decimal, push_bool, push_quoted, push_u64, first_index_of, last_index_of, lemma_index_below_range,
    lemma_index_from_range, lower_of, lowercase, parse_u64, rfind_char, seq_contains,
    seq_starts_with, split_lines, str_contains, str_eq, str_starts_with, text_lines, trim, trim_of,
};

verus! {

/// The error type of serde_json, carried through unchanged.
#[verifier::external_type_specification]
#[verifier::external_body]
pub struct ExJsonError(serde_json::Error);

/// Layout of the DTrace output to read.
#[derive(Clone, Copy, Debug, PartialEq, Eq, Structural)]
pub enum InputFormat {
    /// Stacks of frames, each followed by its count: `@[ustack()] = count();`.
    AggregatedStack,
    /// A user stack, then a kernel stack, then the count (not supported yet).
    SplitStacks,
    /// One record per probe firing (not supported yet).
    PerProbe,
}

/// Whether a stack runs in user space or in the kernel.
#[derive(Clone, Copy, Debug, PartialEq, Eq, Structural)]
pub enum StackKind {
    User,
    Kernel,
    Unknown,
}

/// One frame of a DTrace stack: `module`symbol+offset`.
#[derive(Clone, Debug)]
pub struct DtraceFrame {
    pub module: String,
    pub symbol: String,
    pub offset: Option<String>,
}

/// One stack of the output with its count.
#[derive(Clone, Debug)]
pub struct DtraceStack {
    pub frames: Vec<DtraceFrame>,
    pub count: u64,
    pub kind: StackKind,
}

/// Settings of a conversion.
#[derive(Clone, Debug)]
pub struct ConverterConfig {
    /// Event name written to the output.
    pub event_name: String,
    /// Sampling frequency, where known (for the profile-N provider).
    pub frequency_hz: Option<u64>,
}

impl Default for ConverterConfig {
    fn default() -> (r: Self)
        ensures
            r.event_name@ == "profile-997"@,
            r.frequency_hz == Some(997u64),
    {
        ConverterConfig { event_name: String::from_str("profile-997"), frequency_hz: Some(997) }
    }
}

/// Reads DTrace output and writes it as SPAA records.
pub struct DtraceConverter {
    pub format: InputFormat,
    pub config: ConverterConfig,
    pub stacks: Vec<DtraceStack>,
}

/// Why a conversion failed.
#[derive(Debug)]
pub enum ConvertError {
    Json(serde_json::Error),
    Parse { line: usize, message: String },
    NoStacks,
    UnsupportedFormat,
}

// ---------------------------------------------------------------------------
// Frames
// ---------------------------------------------------------------------------

/// The characters of a frame: module, symbol and offset.
pub type FrameView = (Seq<char>, Seq<char>, Option<Seq<char>>);

pub open spec fn frame_view(f: DtraceFrame) -> FrameView {
    (
        f.module@,
        f.symbol@,
        match f.offset {
            Some(o) => Some(o@),
            None => None,
        },
    )
}

/// The frame a line holds: the module before the first backtick (`unknown`
/// without one), the symbol, and the offset after the last `+`. None for an
/// empty line or an empty or null symbol.
pub open spec fn frame_of(l: Seq<char>) -> Option<FrameView> {
    if l.len() == 0 {
        None
    } else {
        let tick = first_index_of(l, '`');
        let module = if tick >= 0 { l.subrange(0, tick) } else { "unknown"@ };
        let rest = if tick >= 0 { l.subrange(tick + 1, l.len() as int) } else { l };
        let plus = last_index_of(rest, '+');
        let symbol = if plus >= 0 { rest.subrange(0, plus) } else { rest };
        let offset = if plus >= 0 { Some(rest.subrange(plus + 1, rest.len() as int)) } else { None };
        if symbol.len() == 0 || symbol == "0x0"@ {
            None
        } else {
            Some((module, symbol, offset))
        }
    }
}

/// A module name that marks kernel code.
pub open spec fn kernel_hint(m: Seq<char>) -> bool {
    let l = lower_of(m);
    seq_contains(l, "kernel"@) || seq_contains(l, "genunix"@) || seq_contains(l, "unix"@) || l == "mach_kernel"@
}

/// A module name that marks user-space libraries.
pub open spec fn user_hint(m: Seq<char>) -> bool {
    let l = lower_of(m);
    seq_contains(l, "libc"@) || seq_contains(l, "libsystem"@) || seq_contains(l, "dyld"@) || seq_contains(l, ".dylib"@)
        || seq_contains(l, ".so"@)
}

/// Kernel where some module marks kernel code, else user where some module
/// marks a user-space library, else unknown.
pub open spec fn stack_kind_of(fs: Seq<FrameView>) -> StackKind {
    if exists|i: int| 0 <= i < fs.len() && kernel_hint((#[trigger] fs[i]).0) {
        StackKind::Kernel
    } else if exists|i: int| 0 <= i < fs.len() && user_hint((#[trigger] fs[i]).0) {
        StackKind::User
    } else {
        StackKind::Unknown
    }
}

pub open spec fn frames_view(fs: Seq<DtraceFrame>) -> Seq<FrameView> {
    fs.map_values(|f: DtraceFrame| frame_view(f))
}

/// A module of kernel code, by its name.
pub open spec fn is_kernel_module_name(m: Seq<char>) -> bool {
    let l = lower_of(m);
    seq_contains(l, "kernel"@) || seq_contains(l, "genunix"@) || l == "unix"@ || l == "mach_kernel"@
}

// ---------------------------------------------------------------------------
// Reading the output
// ---------------------------------------------------------------------------

/// A banner line of DTrace rather than a frame.
pub open spec fn is_metadata_line(t: Seq<char>) -> bool {
    seq_starts_with(t, "dtrace:"@) || seq_starts_with(t, "CPU"@) || seq_starts_with(t, "ID"@) || seq_contains(
        t,
        "FUNCTION:NAME"@,
    )
}

/// Stacks read so far, each with its count, and the frames of the stack
/// being read.
pub type ParseState = (Seq<(Seq<FrameView>, u64)>, Seq<FrameView>);

/// The state after one more line: a count closes the pending stack (and is
/// ignored without one), a frame line adds a frame, anything else is skipped.
pub open spec fn parse_step(st: ParseState, line: Seq<char>) -> ParseState {
    let t = trim_of(line);
    if t.len() == 0 {
        st
    } else if decimal_u64(t) is Some {
        if st.1.len() > 0 {
            (st.0.push((st.1, decimal_u64(t)->0)), Seq::empty())
        } else {
            st
        }
    } else if is_metadata_line(t) {
        st
    } else {
        match frame_of(trim_of(t)) {
            Some(f) => (st.0, st.1.push(f)),
            None => st,
        }
    }
}

/// The state after the first `k` lines.
pub open spec fn parse_lines(lines: Seq<Seq<char>>, k: int) -> ParseState
    decreases k,
{
    if k <= 0 || k > lines.len() {
        (Seq::empty(), Seq::empty())
    } else {
        parse_step(parse_lines(lines, k - 1), lines[k - 1])
    }
}

/// The stacks of an aggregated-stack output, with their counts. Frames after
/// the last count belong to no stack.
pub open spec fn parsed_stacks(text: Seq<char>) -> Seq<(Seq<FrameView>, u64)> {
    let ls = text_lines(text);
    parse_lines(ls, ls.len() as int).0
}

/// `s` is the stack `p` read from the output, with its kind.
pub open spec fn stack_matches(s: DtraceStack, p: (Seq<FrameView>, u64)) -> bool {
    &&& frames_view(s.frames@) == p.0
    &&& s.count == p.1
    &&& s.kind == stack_kind_of(p.0)
}

impl DtraceConverter {
    /// A converter for `format` with the default settings.
    pub fn new(format: InputFormat) -> (r: Self)
        ensures
            r.format == format,
            r.config.event_name@ == "profile-997"@,
            r.config.frequency_hz == Some(997u64),
            r.stacks@.len() == 0,
    {
        DtraceConverter { format, config: ConverterConfig::default(), stacks: Vec::new() }
    }

    /// A converter for `format` with the settings `config`.
    pub fn with_config(format: InputFormat, config: ConverterConfig) -> (r: Self)
        ensures
            r.format == format,
            r.config == config,
            r.stacks@.len() == 0,
    {
        DtraceConverter { format, config, stacks: Vec::new() }
    }

    /// Reads one frame line.
    #[verifier::rlimit(40)]
    pub fn parse_frame(line: &str) -> (r: Option<DtraceFrame>)
        ensures
            match r {
                Some(f) => frame_of(trim_of(line@)) == Some(frame_view(f)),
                None => frame_of(trim_of(line@)) is None,
            },
    {
        let l = trim(line);
        let n = l.unicode_len();
        if n == 0 {
            return None;
        }
        let ghost lv = l@;
        let tick = find_char(l, '`');
        proof {
            lemma_index_from_range(lv, '`', 0);
        }
        let (module, rest) = match tick {
            Some(t) => (String::from_str(l.substring_char(0, t)), l.substring_char(t + 1, n)),
            None => (String::from_str("unknown"), l),
        };
        let rn = rest.unicode_len();
        let plus = rfind_char(rest, '+');
        proof {
            lemma_index_below_range(rest@, '+', rest@.len() as int);
        }
        let (symbol, offset) = match plus {
            Some(p) => (String::from_str(rest.substring_char(0, p)), Some(String::from_str(rest.substring_char(p + 1, rn)))),
            None => (String::from_str(rest), None),
        };
        if symbol.as_str().is_empty() || str_eq(symbol.as_str(), "0x0") {
            return None;
        }
        Some(DtraceFrame { module, symbol, offset })
    }

    /// Kernel where some frame's module marks kernel code, else user where
    /// some module marks a user-space library, else unknown.
    #[verifier::rlimit(40)]
    pub fn infer_stack_kind(frames: &[DtraceFrame]) -> (r: StackKind)
        ensures
            r == stack_kind_of(frames_view(frames@)),
    {
        let ghost fv = frames_view(frames@);
        let mut i: usize = 0;
        while i < frames.len()
            invariant
                fv == frames_view(frames@),
                i <= frames@.len(),
                forall|j: int| 0 <= j < i ==> !kernel_hint((#[trigger] fv[j]).0),
            decreases frames@.len() - i,
        {
            let l = lowercase(frames[i].module.as_str());
            let s = l.as_str();
            if str_contains(s, "kernel") || str_contains(s, "genunix") || str_contains(s, "unix") || str_eq(s, "mach_kernel") {
                assert(kernel_hint(fv[i as int].0));
                return StackKind::Kernel;
            }
            i += 1;
        }
        let mut i: usize = 0;
        while i < frames.len()
            invariant
                fv == frames_view(frames@),
                i <= frames@.len(),
                forall|j: int| 0 <= j < fv.len() ==> !kernel_hint((#[trigger] fv[j]).0),
                forall|j: int| 0 <= j < i ==> !user_hint((#[trigger] fv[j]).0),
            decreases frames@.len() - i,
        {
            let l = lowercase(frames[i].module.as_str());
            let s = l.as_str();
            if str_contains(s, "libc") || str_contains(s, "libsystem") || str_contains(s, "dyld") || str_contains(s, ".dylib")
                || str_contains(s, ".so") {
                assert(user_hint(fv[i as int].0));
                return StackKind::User;
            }
            i += 1;
        }
        StackKind::Unknown
    }

    /// Whether a module is kernel code, by its name.
    pub fn is_kernel_module(module: &str) -> (r: bool)
        ensures
            r == is_kernel_module_name(module@),
    {
        let l = lowercase(module);
        let s = l.as_str();
        str_contains(s, "kernel") || str_contains(s, "genunix") || str_eq(s, "unix") || str_eq(s, "mach_kernel")
    }
}

impl DtraceConverter {
    /// Reads DTrace output, adding its stacks to those read before. Only the
    /// aggregated-stack layout is supported.
    pub fn parse(&mut self, input: &str) -> (r: Result<(), ConvertError>)
        ensures
            final(self).format == old(self).format,
            final(self).config == old(self).config,
            old(self).format == InputFormat::AggregatedStack ==> {
                let p = parsed_stacks(input@);
                &&& r is Ok
                &&& final(self).stacks@.len() == old(self).stacks@.len() + p.len()
                &&& forall|j: int| 0 <= j < old(self).stacks@.len() ==> final(self).stacks@[j] == old(self).stacks@[j]
                &&& forall|j: int| 0 <= j < p.len() ==> stack_matches(#[trigger] final(self).stacks@[old(self).stacks@.len() + j], p[j])
            },
            old(self).format != InputFormat::AggregatedStack ==> final(self).stacks@ == old(self).stacks@ && match r {
                Err(ConvertError::UnsupportedFormat) => true,
                _ => false,
            },
    {
        match self.format {
            InputFormat::AggregatedStack => {
                self.parse_aggregated(input);
                Ok(())
            },
            InputFormat::SplitStacks => Err(ConvertError::UnsupportedFormat),
            InputFormat::PerProbe => Err(ConvertError::UnsupportedFormat),
        }
    }

    #[verifier::rlimit(40)]
    fn parse_aggregated(&mut self, input: &str)
        ensures
            final(self).format == old(self).format,
            final(self).config == old(self).config,
            ({
                let p = parsed_stacks(input@);
                &&& final(self).stacks@.len() == old(self).stacks@.len() + p.len()
                &&& forall|j: int| 0 <= j < old(self).stacks@.len() ==> final(self).stacks@[j] == old(self).stacks@[j]
                &&& forall|j: int| 0 <= j < p.len() ==> stack_matches(#[trigger] final(self).stacks@[old(self).stacks@.len() + j], p[j])
            }),
    {
        let lines = split_lines(input);
        let ghost ls = text_lines(input@);
        let ghost base = old(self).stacks@;
        let mut current: Vec<DtraceFrame> = Vec::new();
        let mut i: usize = 0;
        while i < lines.len()
            invariant
                lines@.len() == ls.len(),
                ls == text_lines(input@),
                forall|j: int| 0 <= j < lines@.len() ==> (#[trigger] lines@[j])@ == ls[j],
                i <= lines@.len(),
                self.format == old(self).format,
                self.config == old(self).config,
                base == old(self).stacks@,
                self.stacks@.len() == base.len() + parse_lines(ls, i as int).0.len(),
                forall|j: int| 0 <= j < base.len() ==> self.stacks@[j] == base[j],
                forall|j: int| 0 <= j < parse_lines(ls, i as int).0.len()
                    ==> stack_matches(#[trigger] self.stacks@[base.len() + j], parse_lines(ls, i as int).0[j]),
                frames_view(current@) == parse_lines(ls, i as int).1,
            decreases lines@.len() - i,
        {
            let ghost st = parse_lines(ls, i as int);
            let ghost old_stacks = self.stacks@;
            assert(parse_lines(ls, i as int + 1) == parse_step(st, ls[i as int]));
            let t = trim(lines[i].as_str());
            if !t.is_empty() {
                match parse_u64(t) {
                    Some(count) => {
                        if current.len() > 0 {
                            let kind = Self::infer_stack_kind(current.as_slice());
                            let frames = current;
                            current = Vec::new();
                            self.stacks.push(DtraceStack { frames, count, kind });
                            proof {
                                let st2 = parse_lines(ls, i as int + 1);
                                assert(frames_view(current@) =~= st2.1);
                                assert forall|j: int| 0 <= j < st2.0.len()
                                    implies stack_matches(#[trigger] self.stacks@[base.len() + j], st2.0[j]) by {
                                    if j < st.0.len() {
                                        assert(self.stacks@[base.len() + j] == old_stacks[base.len() + j]);
                                    }
                                }
                            }
                        }
                    },
                    None => {
                        let meta = str_starts_with(t, "dtrace:") || str_starts_with(t, "CPU") || str_starts_with(t, "ID")
                            || str_contains(t, "FUNCTION:NAME");
                        if !meta {
                            match Self::parse_frame(t) {
                                Some(f) => {
                                    let ghost old_cur = current@;
                                    current.push(f);
                                    proof {
                                        assert(frames_view(current@) =~= frames_view(old_cur).push(frame_view(f)));
                                    }
                                },
                                None => {},
                            }
                        }
                    },
                }
            }
            i += 1;
        }
    }
}

// ---------------------------------------------------------------------------
// Dictionaries and aggregation
// ---------------------------------------------------------------------------

/// One distinct stack of the output, by frame ids, with its summed count.
pub struct AggregatedStack {
    pub id: String,
    pub frame_ids: Vec<u64>,
    pub total_count: u64,
    pub kind: StackKind,
}

/// The dictionaries of a conversion: modules and frames in the order of
/// their first appearance (the id of each is its position plus one), and the
/// distinct stacks.
pub struct SpaaTables {
    pub dsos: Vec<String>,
    pub frames: Vec<DtraceFrame>,
    /// For each frame, the id of its module.
    pub frame_dsos: Vec<u64>,
    pub stacks: Vec<AggregatedStack>,
}

/// The frames that a sequence of frame ids names.
pub open spec fn ids_frames(ids: Seq<u64>, table: Seq<DtraceFrame>) -> Seq<FrameView> {
    ids.map_values(|id: u64| frame_view(table[id - 1]))
}

/// Every id names a frame of the table.
pub open spec fn ids_in_range(ids: Seq<u64>, n: int) -> bool {
    forall|m: int| 0 <= m < ids.len() ==> 1 <= #[trigger] ids[m] <= n
}

/// Sum of the counts of the first `k` stacks whose frames are `fv`.
pub open spec fn count_sum(input: Seq<DtraceStack>, fv: Seq<FrameView>, k: int) -> int
    decreases k,
{
    if k <= 0 || k > input.len() {
        0
    } else {
        count_sum(input, fv, k - 1) + (if frames_view(input[k - 1].frames@) == fv { input[k - 1].count as int } else { 0 })
    }
}

/// `min(v, u64::MAX)`.
pub open spec fn saturate(v: int) -> int {
    if v > u64::MAX {
        u64::MAX as int
    } else {
        v
    }
}

/// `a` is the aggregate of the first `k` stacks of `input` whose frames are
/// those its ids name: their count summed, the kind of one of them, and an
/// id text made from a hash.
pub open spec fn agg_ok(input: Seq<DtraceStack>, frames: Seq<DtraceFrame>, a: AggregatedStack, k: int) -> bool {
    let fv = ids_frames(a.frame_ids@, frames);
    &&& a.frame_ids@.len() > 0
    &&& ids_in_range(a.frame_ids@, frames.len() as int)
    &&& a.total_count as int == saturate(count_sum(input, fv, k))
    &&& exists|kk: int| 0 <= kk < k && frames_view(input[kk].frames@) == fv && #[trigger] input[kk].kind == a.kind
    &&& exists|h: u64| a.id@ == #[trigger] hex_u64_text(h)
}

/// The dictionaries and aggregated stacks of `input`, as `spaa_tables` builds them.
pub open spec fn tables_ok(input: Seq<DtraceStack>, t: SpaaTables) -> bool {
    let dsos = t.dsos@;
    let frames = t.frames@;
    let stacks = t.stacks@;
    &&& forall|a: int, b: int| 0 <= a < b < dsos.len() ==> (#[trigger] dsos[a])@ != (#[trigger] dsos[b])@
    &&& forall|a: int, b: int| 0 <= a < b < frames.len() ==> frame_view(#[trigger] frames[a]) != frame_view(#[trigger] frames[b])
    &&& t.frame_dsos@.len() == frames.len()
    &&& forall|q: int| 0 <= q < frames.len() ==> 1 <= #[trigger] t.frame_dsos@[q] <= dsos.len()
        && dsos[t.frame_dsos@[q] - 1]@ == frames[q].module@
    &&& forall|k: int, m: int| 0 <= k < input.len() && 0 <= m < input[k].frames@.len()
        ==> #[trigger] listed(frames, frame_view(input[k].frames@[m]))
    &&& forall|e: int| 0 <= e < stacks.len() ==> agg_ok(input, frames, #[trigger] stacks[e], input.len() as int)
    &&& forall|a: int, b: int| 0 <= a < b < stacks.len() ==> ids_frames((#[trigger] stacks[a]).frame_ids@, frames) != ids_frames((#[trigger] stacks[b]).frame_ids@, frames)
    &&& forall|k: int| 0 <= k < input.len() && (#[trigger] input[k]).frames@.len() > 0
        ==> exists|e: int| 0 <= e < stacks.len() && ids_frames((#[trigger] stacks[e]).frame_ids@, frames) == frames_view(input[k].frames@)
}

/// Some frame of `frames` has the view `fv`.
pub open spec fn listed(frames: Seq<DtraceFrame>, fv: FrameView) -> bool {
    exists|q: int| 0 <= q < frames.len() && frame_view(#[trigger] frames[q]) == fv
}

/// Whether two frames have the same module, symbol and offset.
fn same_frame(a: &DtraceFrame, b: &DtraceFrame) -> (r: bool)
    ensures
        r == (frame_view(*a) == frame_view(*b)),
{
    if a.module != b.module || a.symbol != b.symbol {
        return false;
    }
    match (&a.offset, &b.offset) {
        (Some(x), Some(y)) => *x == *y,
        (None, None) => true,
        _ => false,
    }
}

fn find_frame(frames: &Vec<DtraceFrame>, f: &DtraceFrame) -> (r: Option<usize>)
    ensures
        match r {
            Some(q) => q < frames@.len() && frame_view(frames@[q as int]) == frame_view(*f),
            None => forall|q: int| 0 <= q < frames@.len() ==> frame_view(#[trigger] frames@[q]) != frame_view(*f),
        },
{
    let mut q: usize = 0;
    while q < frames.len()
        invariant
            q <= frames@.len(),
            forall|j: int| 0 <= j < q ==> frame_view(#[trigger] frames@[j]) != frame_view(*f),
        decreases frames@.len() - q,
    {
        if same_frame(&frames[q], f) {
            return Some(q);
        }
        q += 1;
    }
    None
}

fn find_name(names: &Vec<String>, name: &String) -> (r: Option<usize>)
    ensures
        match r {
            Some(q) => q < names@.len() && names@[q as int]@ == name@,
            None => forall|q: int| 0 <= q < names@.len() ==> (#[trigger] names@[q])@ != name@,
        },
{
    let mut q: usize = 0;
    while q < names.len()
        invariant
            q <= names@.len(),
            forall|j: int| 0 <= j < q ==> (#[trigger] names@[j])@ != name@,
        decreases names@.len() - q,
    {
        if names[q] == *name {
            return Some(q);
        }
        q += 1;
    }
    None
}

/// Relies on `<[u64] as Hash>::hash`: feeds the ids to the hasher.
#[verifier::external_body]
fn hash_ids(hasher: &mut DefaultHasher, ids: &[u64]) {
    std::hash::Hash::hash(ids, hasher)
}

/// Some hash of the ids, from a fresh `DefaultHasher`.
fn stack_hash(ids: &[u64]) -> u64 {
    let mut hasher = DefaultHasher::new();
    hash_ids(&mut hasher, ids);
    hasher.finish()
}

fn copy_frame(f: &DtraceFrame) -> (r: DtraceFrame)
    ensures
        frame_view(r) == frame_view(*f),
{
    let offset = match &f.offset {
        Some(o) => Some(o.clone()),
        None => None,
    };
    DtraceFrame { module: f.module.clone(), symbol: f.symbol.clone(), offset }
}

fn find_ids(stacks: &Vec<AggregatedStack>, ids: &Vec<u64>) -> (r: Option<usize>)
    ensures
        match r {
            Some(e) => e < stacks@.len() && stacks@[e as int].frame_ids@ == ids@,
            None => forall|e: int| 0 <= e < stacks@.len() ==> (#[trigger] stacks@[e]).frame_ids@ != ids@,
        },
{
    let mut e: usize = 0;
    while e < stacks.len()
        invariant
            e <= stacks@.len(),
            forall|j: int| 0 <= j < e ==> (#[trigger] stacks@[j]).frame_ids@ != ids@,
        decreases stacks@.len() - e,
    {
        if stacks[e].frame_ids.len() == ids.len() {
            let mut m: usize = 0;
            let mut same = true;
            while m < ids.len()
                invariant
                    e < stacks@.len(),
                    stacks@[e as int].frame_ids@.len() == ids@.len(),
                    m <= ids@.len(),
                    same == forall|j: int| 0 <= j < m ==> stacks@[e as int].frame_ids@[j] == ids@[j],
                decreases ids@.len() - m,
            {
                if stacks[e].frame_ids[m] != ids[m] {
                    same = false;
                }
                m += 1;
            }
            if same {
                assert(stacks@[e as int].frame_ids@ =~= ids@);
                return Some(e);
            }
        }
        e += 1;
    }
    None
}

/// No stack before the `k`-th has the frames `fv`.
proof fn lemma_count_sum_absent(input: Seq<DtraceStack>, fv: Seq<FrameView>, k: int)
    requires
        0 <= k <= input.len(),
        forall|kk: int| 0 <= kk < k ==> frames_view((#[trigger] input[kk]).frames@) != fv,
    ensures
        count_sum(input, fv, k) == 0,
    decreases k,
{
    if k > 0 {
        lemma_count_sum_absent(input, fv, k - 1);
    }
}

proof fn lemma_ids_frames_injective(a: Seq<u64>, b: Seq<u64>, table: Seq<DtraceFrame>)
    requires
        ids_in_range(a, table.len() as int),
        ids_in_range(b, table.len() as int),
        forall|x: int, y: int| 0 <= x < y < table.len() ==> frame_view(#[trigger] table[x]) != frame_view(#[trigger] table[y]),
        ids_frames(a, table) == ids_frames(b, table),
    ensures
        a == b,
{
    assert(a.len() == ids_frames(a, table).len());
    assert(b.len() == ids_frames(b, table).len());
    assert forall|m: int| 0 <= m < a.len() implies a[m] == b[m] by {
        assert(ids_frames(a, table)[m] == frame_view(table[a[m] - 1]));
        assert(ids_frames(b, table)[m] == frame_view(table[b[m] - 1]));
        assert(1 <= a[m] <= table.len());
        assert(1 <= b[m] <= table.len());
        if a[m] < b[m] {
            assert(frame_view(table[a[m] - 1]) != frame_view(table[b[m] - 1]));
        } else if a[m] > b[m] {
            assert(frame_view(table[b[m] - 1]) != frame_view(table[a[m] - 1]));
        }
    }
    assert(a =~= b);
}

impl DtraceConverter {
    /// The dictionaries of the stacks read: modules and frames in order of
    /// first appearance, and one entry per distinct stack with the sum of its
    /// counts (saturating at the largest `u64`). Stacks without frames are
    /// left out.
    #[verifier::rlimit(40)]
    pub fn spaa_tables(&self) -> (t: SpaaTables)
        ensures
            tables_ok(self.stacks@, t),
    {
        let input = &self.stacks;
        let mut dsos: Vec<String> = Vec::new();
        let mut frames: Vec<DtraceFrame> = Vec::new();
        let mut frame_dsos: Vec<u64> = Vec::new();
        let mut k: usize = 0;
        while k < input.len()
            invariant
                input == &self.stacks,
                k <= input@.len(),
                forall|a: int, b: int| 0 <= a < b < dsos@.len() ==> (#[trigger] dsos@[a])@ != (#[trigger] dsos@[b])@,
                forall|a: int, b: int| 0 <= a < b < frames@.len() ==> frame_view(#[trigger] frames@[a]) != frame_view(#[trigger] frames@[b]),
                frame_dsos@.len() == frames@.len(),
                forall|q: int| 0 <= q < frames@.len() ==> 1 <= #[trigger] frame_dsos@[q] <= dsos@.len()
                    && dsos@[frame_dsos@[q] - 1]@ == frames@[q].module@,
                forall|kk: int, m: int| 0 <= kk < k && 0 <= m < input@[kk].frames@.len()
                    ==> #[trigger] listed(frames@, frame_view(input@[kk].frames@[m])),
            decreases input@.len() - k,
        {
            let stack = &input[k];
            let mut m: usize = 0;
            proof {
                assert forall|kk: int, mm: int| 0 <= kk <= k && 0 <= mm < input@[kk].frames@.len() && (kk < k || mm < 0)
                    implies #[trigger] listed(frames@, frame_view(input@[kk].frames@[mm])) by {
                    assert(kk < k);
                }
            }
            while m < stack.frames.len()
                invariant
                    input == &self.stacks,
                    k < input@.len(),
                    stack == &input@[k as int],
                    m <= stack.frames@.len(),
                    forall|a: int, b: int| 0 <= a < b < dsos@.len() ==> (#[trigger] dsos@[a])@ != (#[trigger] dsos@[b])@,
                    forall|a: int, b: int| 0 <= a < b < frames@.len() ==> frame_view(#[trigger] frames@[a]) != frame_view(#[trigger] frames@[b]),
                    frame_dsos@.len() == frames@.len(),
                    forall|q: int| 0 <= q < frames@.len() ==> 1 <= #[trigger] frame_dsos@[q] <= dsos@.len()
                        && dsos@[frame_dsos@[q] - 1]@ == frames@[q].module@,
                    forall|kk: int, mm: int| 0 <= kk <= k && 0 <= mm < input@[kk].frames@.len() && (kk < k || mm < m)
                        ==> #[trigger] listed(frames@, frame_view(input@[kk].frames@[mm])),
                decreases stack.frames@.len() - m,
            {
                let f = &stack.frames[m];
                let ghost old_dsos = dsos@;
                let d = match find_name(&dsos, &f.module) {
                    Some(q) => q,
                    None => {
                        dsos.push(f.module.clone());
                        proof {
                            assert forall|a: int, b: int| 0 <= a < b < dsos@.len() implies (#[trigger] dsos@[a])@ != (#[trigger] dsos@[b])@ by {
                                if b < old_dsos.len() {
                                    assert(old_dsos[a]@ != old_dsos[b]@);
                                }
                            }
                        }
                        dsos.len() - 1
                    },
                };
                assert(forall|q: int| 0 <= q < old_dsos.len() ==> dsos@[q] == old_dsos[q]);
                let ghost old_frames = frames@;
                let ghost old_fd = frame_dsos@;
                let ghost mut fq: int = 0;
                let nd = dsos.len();
                assert(d < nd);
                match find_frame(&frames, f) {
                    Some(q) => {
                        proof {
                            fq = q as int;
                        }
                    },
                    None => {
                        let c = copy_frame(f);
                        frames.push(c);
                        frame_dsos.push((d + 1) as u64);
                        proof {
                            fq = old_frames.len() as int;
                            assert forall|a: int, b: int| 0 <= a < b < frames@.len() implies frame_view(#[trigger] frames@[a]) != frame_view(#[trigger] frames@[b]) by {
                                if b < old_frames.len() {
                                    assert(frame_view(old_frames[a]) != frame_view(old_frames[b]));
                                }
                            }
                            assert forall|q: int| 0 <= q < frames@.len() implies 1 <= #[trigger] frame_dsos@[q] <= dsos@.len()
                                && dsos@[frame_dsos@[q] - 1]@ == frames@[q].module@ by {
                                if q < old_frames.len() {
                                    assert(frame_dsos@[q] == old_fd[q]);
                                    assert(frames@[q] == old_frames[q]);
                                }
                            }
                        }
                    },
                }
                proof {
                    assert forall|kk: int, mm: int| 0 <= kk <= k && 0 <= mm < input@[kk].frames@.len() && (kk < k || mm < m + 1)
                        implies #[trigger] listed(frames@, frame_view(input@[kk].frames@[mm])) by {
                        if kk < k || mm < m {
                            assert(listed(old_frames, frame_view(input@[kk].frames@[mm])));
                            let q = choose|q: int| 0 <= q < old_frames.len() && frame_view(#[trigger] old_frames[q]) == frame_view(input@[kk].frames@[mm]);
                            assert(frames@[q] == old_frames[q]);
                        } else {
                            assert(frame_view(frames@[fq]) == frame_view(input@[kk].frames@[mm]));
                            assert(0 <= fq < frames@.len());
                        }
                    }
                }
                m += 1;
            }
            proof {
                assert forall|kk: int, mm: int| 0 <= kk < k + 1 && 0 <= mm < input@[kk].frames@.len()
                    implies #[trigger] listed(frames@, frame_view(input@[kk].frames@[mm])) by {
                    assert(kk < k || mm < m);
                }
            }
            k += 1;
        }
        let mut aggs: Vec<AggregatedStack> = Vec::new();
        let mut k: usize = 0;
        while k < input.len()
            invariant
                input == &self.stacks,
                k <= input@.len(),
                forall|a: int, b: int| 0 <= a < b < frames@.len() ==> frame_view(#[trigger] frames@[a]) != frame_view(#[trigger] frames@[b]),
                forall|kk: int, m: int| 0 <= kk < input@.len() && 0 <= m < input@[kk].frames@.len()
                    ==> #[trigger] listed(frames@, frame_view(input@[kk].frames@[m])),
                forall|e: int| 0 <= e < aggs@.len() ==> agg_ok(input@, frames@, #[trigger] aggs@[e], k as int),
                forall|a: int, b: int| 0 <= a < b < aggs@.len() ==> ids_frames((#[trigger] aggs@[a]).frame_ids@, frames@) != ids_frames((#[trigger] aggs@[b]).frame_ids@, frames@),
                forall|kk: int| 0 <= kk < k && (#[trigger] input@[kk]).frames@.len() > 0
                    ==> exists|e: int| 0 <= e < aggs@.len() && ids_frames((#[trigger] aggs@[e]).frame_ids@, frames@) == frames_view(input@[kk].frames@),
            decreases input@.len() - k,
        {
            let stack = &input[k];
            let mut ids: Vec<u64> = Vec::new();
            let mut m: usize = 0;
            let nf = frames.len();
            while m < stack.frames.len()
                invariant
                    input == &self.stacks,
                    k < input@.len(),
                    stack == &input@[k as int],
                    nf == frames@.len(),
                    m <= stack.frames@.len(),
                    ids@.len() == m,
                    ids_in_range(ids@, frames@.len() as int),
                    forall|j: int| 0 <= j < m ==> frame_view(frames@[ids@[j] - 1]) == #[trigger] frame_view(stack.frames@[j]),
                    forall|kk: int, mm: int| 0 <= kk < input@.len() && 0 <= mm < input@[kk].frames@.len()
                        ==> #[trigger] listed(frames@, frame_view(input@[kk].frames@[mm])),
                decreases stack.frames@.len() - m,
            {
                match find_frame(&frames, &stack.frames[m]) {
                    Some(q) => {
                        ids.push((q + 1) as u64);
                    },
                    None => {
                        proof {
                            assert(listed(frames@, frame_view(input@[k as int].frames@[m as int])));
                            assert(false);
                        }
                    },
                }
                m += 1;
            }
            let ghost cur = ids_frames(ids@, frames@);
            assert(cur =~= frames_view(stack.frames@));
            let ghost old_aggs = aggs@;
            let ghost mut hit: int = -1;
            if ids.len() > 0 {
                match find_ids(&aggs, &ids) {
                    Some(e) => {
                        let total = aggs[e].total_count.saturating_add(stack.count);
                        aggs[e].total_count = total;
                        proof {
                            hit = e as int;
                        }
                    },
                    None => {
                        let h = stack_hash(ids.as_slice());
                        let id = hex_u64(h);
                        let count = stack.count;
                        let kind = stack.kind;
                        aggs.push(AggregatedStack { id, frame_ids: ids, total_count: count, kind });
                        proof {
                            hit = old_aggs.len() as int;
                        }
                    },
                }
            }
            proof {
                assert forall|e: int| 0 <= e < old_aggs.len() && e != hit
                    implies ids_frames((#[trigger] old_aggs[e]).frame_ids@, frames@) != cur by {
                    if ids_frames(old_aggs[e].frame_ids@, frames@) == cur {
                        lemma_ids_frames_injective(old_aggs[e].frame_ids@, ids@, frames@);
                    }
                }
                assert forall|e: int| 0 <= e < aggs@.len() implies agg_ok(input@, frames@, #[trigger] aggs@[e], k as int + 1) by {
                    if e < old_aggs.len() {
                        assert(agg_ok(input@, frames@, old_aggs[e], k as int));
                        assert(aggs@[e].frame_ids == old_aggs[e].frame_ids);
                        let kk = choose|kk: int| 0 <= kk < k && frames_view(input@[kk].frames@) == ids_frames(old_aggs[e].frame_ids@, frames@) && #[trigger] input@[kk].kind == old_aggs[e].kind;
                        assert(input@[kk].kind == aggs@[e].kind);
                        let h = choose|h: u64| old_aggs[e].id@ == #[trigger] hex_u64_text(h);
                        assert(aggs@[e].id@ == hex_u64_text(h));
                    } else {
                        assert(input@[k as int].kind == aggs@[e].kind);
                        lemma_count_sum_absent(input@, cur, k as int);
                    }
                }
                assert forall|a: int, b: int| 0 <= a < b < aggs@.len() implies ids_frames((#[trigger] aggs@[a]).frame_ids@, frames@) != ids_frames((#[trigger] aggs@[b]).frame_ids@, frames@) by {
                    if b < old_aggs.len() {
                        assert(aggs@[a].frame_ids == old_aggs[a].frame_ids);
                        assert(aggs@[b].frame_ids == old_aggs[b].frame_ids);
                    } else {
                        assert(aggs@[a].frame_ids == old_aggs[a].frame_ids);
                    }
                }
                assert forall|kk: int| 0 <= kk < k + 1 && (#[trigger] input@[kk]).frames@.len() > 0
                    implies exists|e: int| 0 <= e < aggs@.len() && ids_frames((#[trigger] aggs@[e]).frame_ids@, frames@) == frames_view(input@[kk].frames@) by {
                    if kk < k {
                        let e = choose|e: int| 0 <= e < old_aggs.len() && ids_frames((#[trigger] old_aggs[e]).frame_ids@, frames@) == frames_view(input@[kk].frames@);
                        assert(aggs@[e].frame_ids == old_aggs[e].frame_ids);
                    } else {
                        assert(ids@.len() == stack.frames@.len());
                        assert(aggs@[hit].frame_ids@ == ids@);
                    }
                }
            }
            k += 1;
        }
        SpaaTables { dsos, frames, frame_dsos, stacks: aggs }
    }
}

// ---------------------------------------------------------------------------
// Output text
// ---------------------------------------------------------------------------

/// The sampling of the event: by frequency where one is set, else by event.
pub open spec fn dtrace_sampling_json(cfg: ConverterConfig) -> Seq<char> {
    match cfg.frequency_hz {
        Some(f) => "{\"frequency_hz\":"@ + nat_decimal(f as nat) + ",\"mode\":"@ + "\"frequency\""@ + ",\"primary_metric\":"@
            + json_quoted("samples"@) + Seq::<char>::empty() + "}"@,
        None => "{\"mode\":"@ + "\"event\""@ + ",\"primary_metric\":"@ + json_quoted("count"@) + Seq::<char>::empty() + "}"@,
    }
}

/// The one event of the header: a timer where a frequency is set, else a probe.
pub open spec fn dtrace_event_json(cfg: ConverterConfig) -> Seq<char> {
    "{\"kind\":"@ + (if cfg.frequency_hz is Some { "\"timer\""@ } else { "\"probe\""@ }) + ",\"name\":"@ + json_quoted(
        cfg.event_name@,
    ) + ",\"sampling\":"@ + dtrace_sampling_json(cfg) + "}"@
}

/// The header line.
pub open spec fn header_json(cfg: ConverterConfig) -> Seq<char> {
    "{\"events\":["@ + dtrace_event_json(cfg) + "],\"format\":\"spaa\",\"frame_order\":\"leaf_to_root\",\"source\":"@
        + ("{\"tool\":"@ + json_quoted("dtrace"@) + Seq::<char>::empty() + "}"@)
        + ",\"source_tool\":\"dtrace\",\"stack_id_mode\":\"content_addressable\",\"type\":\"header\",\"version\":\"1.0\"}\n"@
}

/// The line of module `name` with id `id`.
pub open spec fn dso_line(id: u64, name: Seq<char>) -> Seq<char> {
    "{\"id\":"@ + nat_decimal(id as nat) + ",\"is_kernel\":"@ + bool_json(is_kernel_module_name(name)) + ",\"name\":"@
        + json_quoted(name) + ",\"type\":\"dso\"}\n"@
}

/// The start of the line of frame `f` with id `id` in module `dso`, up to
/// its kind.
pub open spec fn frame_line_head(id: u64, dso: u64, f: FrameView) -> Seq<char> {
    "{\"dso\":"@ + nat_decimal(dso as nat) + ",\"func\":"@ + json_quoted(f.1) + ",\"func_resolved\":"@ + bool_json(
        !seq_starts_with(f.1, "0x"@),
    ) + ",\"id\":"@ + nat_decimal(id as nat) + ",\"inlined\":false,\"kind\":"@
}

/// The line of frame `f` with id `id` in module `dso`.
pub open spec fn frame_line(id: u64, dso: u64, f: FrameView) -> Seq<char> {
    frame_line_head(id, dso, f) + (if is_kernel_module_name(f.0) {
        "\"kernel\""@
    } else {
        "\"user\""@
    }) + (match f.2 {
        Some(o) => ",\"symoff\":"@ + json_quoted(o),
        None => Seq::<char>::empty(),
    }) + ",\"type\":\"frame\"}\n"@
}

/// Frame ids before the `k`-th, separated by commas.
pub open spec fn ids_json(ids: Seq<u64>, k: int) -> Seq<char>
    decreases k,
{
    if k <= 0 || k > ids.len() {
        Seq::empty()
    } else if k == 1 {
        nat_decimal(ids[0] as nat)
    } else {
        ids_json(ids, k - 1) + ","@ + nat_decimal(ids[k - 1] as nat)
    }
}

pub open spec fn stack_type_json(k: StackKind) -> Seq<char> {
    match k {
        StackKind::User => "\"user\""@,
        StackKind::Kernel => "\"kernel\""@,
        StackKind::Unknown => "\"unified\""@,
    }
}

/// A weight without a unit.
pub open spec fn metric_json(metric: Seq<char>, v: u64) -> Seq<char> {
    "{\"metric\":"@ + json_quoted(metric) + Seq::<char>::empty() + ",\"value\":"@ + nat_decimal(v as nat) + "}"@
}

/// The line of an aggregated stack: its event, the leaf frame with the count
/// as exclusive weight, the frames, the id, the type, and the weights.
pub open spec fn stack_line(cfg: ConverterConfig, a: AggregatedStack) -> Seq<char> {
    stack_line_head(cfg, a) + stack_line_tail(a)
}

/// The first part of a stack line: the context and the exclusive weight.
pub open spec fn stack_line_head(cfg: ConverterConfig, a: AggregatedStack) -> Seq<char> {
    "{\"context\":{\"event\":"@ + json_quoted(cfg.event_name@) + "},\"exclusive\":{\"frame\":"@ + nat_decimal(
        a.frame_ids@[0] as nat,
    ) + ",\"weights\":"@ + ("["@ + metric_json("count"@, a.total_count) + "]"@)
}

/// The rest of a stack line: frames, id, type and weights.
pub open spec fn stack_line_tail(a: AggregatedStack) -> Seq<char> {
    "},\"frames\":"@ + ("["@ + ids_json(a.frame_ids@, a.frame_ids@.len() as int) + "]"@) + ",\"id\":"@ + json_quoted(
        a.id@,
    ) + ",\"stack_type\":"@ + stack_type_json(a.kind) + ",\"type\":\"stack\",\"weights\":"@ + ("["@ + (metric_json(
        "samples"@,
        a.total_count,
    ) + ","@ + metric_json("count"@, a.total_count)) + "]"@) + "}\n"@
}

/// The header and the first `k` module lines.
pub open spec fn text_to_dsos(cfg: ConverterConfig, t: SpaaTables, k: int) -> Seq<char>
    decreases k,
{
    if k <= 0 || k > t.dsos@.len() {
        header_json(cfg)
    } else {
        text_to_dsos(cfg, t, k - 1) + dso_line(k as u64, t.dsos@[k - 1]@)
    }
}

/// All module lines, then the first `k` frame lines.
pub open spec fn text_to_frames(cfg: ConverterConfig, t: SpaaTables, k: int) -> Seq<char>
    decreases k,
{
    if k <= 0 || k > t.frames@.len() {
        text_to_dsos(cfg, t, t.dsos@.len() as int)
    } else {
        text_to_frames(cfg, t, k - 1) + frame_line(k as u64, t.frame_dsos@[k - 1], frame_view(t.frames@[k - 1]))
    }
}

/// All frame lines, then the first `k` stack lines.
pub open spec fn text_to_stacks(cfg: ConverterConfig, t: SpaaTables, k: int) -> Seq<char>
    decreases k,
{
    if k <= 0 || k > t.stacks@.len() {
        text_to_frames(cfg, t, t.frames@.len() as int)
    } else {
        text_to_stacks(cfg, t, k - 1) + stack_line(cfg, t.stacks@[k - 1])
    }
}

/// The output: one line per record, header, modules, frames, stacks.
pub open spec fn spaa_text(cfg: ConverterConfig, t: SpaaTables) -> Seq<char> {
    text_to_stacks(cfg, t, t.stacks@.len() as int)
}

#[verifier::rlimit(40)]
fn push_header(out: &mut String, cfg: &ConverterConfig) -> (r: Result<(), serde_json::Error>)
    ensures
        r is Ok && final(out)@ == old(out)@ + header_json(*cfg),
{
    let ghost o = out@;
    let sampling = match cfg.frequency_hz {
        Some(freq) => Sampling {
            mode: SamplingMode::Frequency,
            primary_metric: String::from_str("samples"),
            sample_period: None,
            frequency_hz: Some(freq),
        },
        None => Sampling {
            mode: SamplingMode::Event,
            primary_metric: String::from_str("count"),
            sample_period: None,
            frequency_hz: None,
        },
    };
    let kind = match cfg.frequency_hz {
        Some(_) => EventKind::Timer,
        None => EventKind::Probe,
    };
    let event = EventDef { name: cfg.event_name.clone(), kind, sampling, allocation_tracking: None };
    let source = SourceInfo { tool: String::from_str("dtrace"), command: None, tool_version: None };
    out.append("{\"events\":[");
    match event.push_json(out) {
        Ok(()) => {},
        Err(e) => {
            return Err(e);
        },
    }
    assert(event_json(event) == dtrace_event_json(*cfg));
    out.append("],\"format\":\"spaa\",\"frame_order\":\"leaf_to_root\",\"source\":");
    match source.push_json(out) {
        Ok(()) => {},
        Err(e) => {
            return Err(e);
        },
    }
    out.append(",\"source_tool\":\"dtrace\",\"stack_id_mode\":\"content_addressable\",\"type\":\"header\",\"version\":\"1.0\"}\n");
    assert(out@ =~= o + header_json(*cfg));
    Ok(())
}

#[verifier::rlimit(40)]
fn push_dso_line(out: &mut String, id: u64, name: &String) -> (r: Result<(), serde_json::Error>)
    ensures
        r is Ok && final(out)@ == old(out)@ + dso_line(id, name@),
{
    let ghost o = out@;
    out.append("{\"id\":");
    push_u64(out, id);
    out.append(",\"is_kernel\":");
    push_bool(out, DtraceConverter::is_kernel_module(name.as_str()));
    out.append(",\"name\":");
    match push_quoted(out, name.as_str()) {
        Ok(()) => {},
        Err(e) => {
            return Err(e);
        },
    }
    out.append(",\"type\":\"dso\"}\n");
    assert(out@ =~= o + dso_line(id, name@));
    Ok(())
}

#[verifier::rlimit(40)]
fn push_frame_line(out: &mut String, id: u64, dso: u64, f: &DtraceFrame) -> (r: Result<(), serde_json::Error>)
    ensures
        r is Ok && final(out)@ == old(out)@ + frame_line(id, dso, frame_view(*f)),
{
    let ghost o = out@;
    out.append("{\"dso\":");
    push_u64(out, dso);
    out.append(",\"func\":");
    match push_quoted(out, f.symbol.as_str()) {
        Ok(()) => {},
        Err(e) => {
            return Err(e);
        },
    }
    out.append(",\"func_resolved\":");
    push_bool(out, !str_starts_with(f.symbol.as_str(), "0x"));
    out.append(",\"id\":");
    push_u64(out, id);
    out.append(",\"inlined\":false,\"kind\":");
    assert(out@ =~= o + frame_line_head(id, dso, frame_view(*f)));
    let ghost o1 = out@;
    let kernel = DtraceConverter::is_kernel_module(f.module.as_str());
    if kernel {
        out.append("\"kernel\"");
    } else {
        out.append("\"user\"");
    }
    let ghost o2 = out@;
    match &f.offset {
        Some(off) => {
            out.append(",\"symoff\":");
            match push_quoted(out, off.as_str()) {
                Ok(()) => {},
                Err(e) => {
                    return Err(e);
                },
            }
        },
        None => {},
    }
    let ghost o3 = out@;
    assert(o3 =~= o2 + (match frame_view(*f).2 {
        Some(x) => ",\"symoff\":"@ + json_quoted(x),
        None => Seq::<char>::empty(),
    }));
    out.append(",\"type\":\"frame\"}\n");
    assert(out@ =~= o + frame_line(id, dso, frame_view(*f)));
    Ok(())
}

fn push_ids(out: &mut String, ids: &Vec<u64>)
    ensures
        final(out)@ == old(out)@ + ("["@ + ids_json(ids@, ids@.len() as int) + "]"@),
{
    let ghost o = out@;
    out.append("[");
    let mut k: usize = 0;
    while k < ids.len()
        invariant
            k <= ids@.len(),
            out@ == o + "["@ + ids_json(ids@, k as int),
        decreases ids@.len() - k,
    {
        if k > 0 {
            out.append(",");
        }
        push_u64(out, ids[k]);
        proof {
            if k == 0 {
                assert(ids_json(ids@, 0) =~= Seq::<char>::empty());
            }
            assert(out@ =~= o + "["@ + ids_json(ids@, k as int + 1));
        }
        k += 1;
    }
    out.append("]");
    assert(out@ =~= o + ("["@ + ids_json(ids@, ids@.len() as int) + "]"@));
}

fn metric(name: &str, value: u64) -> (w: Weight)
    ensures
        w.metric@ == name@,
        w.value == value,
        w.unit is None,
{
    Weight { metric: String::from_str(name), value, unit: None }
}

#[verifier::rlimit(100)]
fn push_stack_line(out: &mut String, cfg: &ConverterConfig, a: &AggregatedStack) -> (r: Result<(), serde_json::Error>)
    requires
        a.frame_ids@.len() > 0,
    ensures
        r is Ok && final(out)@ == old(out)@ + stack_line(*cfg, *a),
{
    let ghost o = out@;
    out.append("{\"context\":{\"event\":");
    match push_quoted(out, cfg.event_name.as_str()) {
        Ok(()) => {},
        Err(e) => {
            return Err(e);
        },
    }
    out.append("},\"exclusive\":{\"frame\":");
    push_u64(out, a.frame_ids[0]);
    out.append(",\"weights\":");
    let mut exclusive: Vec<Weight> = Vec::new();
    exclusive.push(metric("count", a.total_count));
    match push_weights(out, &exclusive) {
        Ok(()) => {},
        Err(e) => {
            return Err(e);
        },
    }
    assert(weight_list_json(exclusive@) =~= "["@ + metric_json("count"@, a.total_count) + "]"@);
    assert(out@ =~= o + stack_line_head(*cfg, *a));
    let ghost o2 = out@;
    out.append("},\"frames\":");
    push_ids(out, &a.frame_ids);
    out.append(",\"id\":");
    match push_quoted(out, a.id.as_str()) {
        Ok(()) => {},
        Err(e) => {
            return Err(e);
        },
    }
    out.append(",\"stack_type\":");
    match a.kind {
        StackKind::User => out.append("\"user\""),
        StackKind::Kernel => out.append("\"kernel\""),
        StackKind::Unknown => out.append("\"unified\""),
    }
    out.append(",\"type\":\"stack\",\"weights\":");
    let ghost o3 = out@;
    let mut weights: Vec<Weight> = Vec::new();
    weights.push(metric("samples", a.total_count));
    weights.push(metric("count", a.total_count));
    match push_weights(out, &weights) {
        Ok(()) => {},
        Err(e) => {
            return Err(e);
        },
    }
    assert(crate::spaa::weights_json(weights@, 1) == crate::spaa::weight_json(weights@[0]));
    assert(weight_list_json(weights@) =~= "["@ + (metric_json("samples"@, a.total_count) + ","@ + metric_json("count"@, a.total_count)) + "]"@);
    out.append("}\n");
    assert(out@ =~= o2 + stack_line_tail(*a));
    assert(out@ =~= o + stack_line(*cfg, *a));
    Ok(())
}

impl DtraceConverter {
    /// The stacks read, as SPAA records, one JSON object per line: the
    /// header, then the modules, the frames and the distinct stacks, each
    /// dictionary in order of first appearance. Fails without stacks.
    #[verifier::rlimit(40)]
    pub fn write_spaa(&self) -> (r: Result<String, ConvertError>)
        ensures
            self.stacks@.len() == 0 <==> r matches Err(ConvertError::NoStacks),
            self.stacks@.len() > 0 ==> r is Ok,
            r matches Ok(text) ==> exists|t: SpaaTables| tables_ok(self.stacks@, t) && text@ == spaa_text(self.config, t),
    {
        if self.stacks.len() == 0 {
            return Err(ConvertError::NoStacks);
        }
        let tables = self.spaa_tables();
        let mut out = String::new();
        match push_header(&mut out, &self.config) {
            Ok(()) => {},
            Err(e) => {
                return Err(ConvertError::Json(e));
            },
        }
        assert(out@ =~= text_to_dsos(self.config, tables, 0));
        let mut k: usize = 0;
        while k < tables.dsos.len()
            invariant
                self.stacks@.len() > 0,
                tables_ok(self.stacks@, tables),
                k <= tables.dsos@.len(),
                out@ == text_to_dsos(self.config, tables, k as int),
            decreases tables.dsos@.len() - k,
        {
            match push_dso_line(&mut out, (k + 1) as u64, &tables.dsos[k]) {
                Ok(()) => {},
                Err(e) => {
                    return Err(ConvertError::Json(e));
                },
            }
            k += 1;
        }
        let mut k: usize = 0;
        while k < tables.frames.len()
            invariant
                self.stacks@.len() > 0,
                tables_ok(self.stacks@, tables),
                k <= tables.frames@.len(),
                out@ == text_to_frames(self.config, tables, k as int),
            decreases tables.frames@.len() - k,
        {
            match push_frame_line(&mut out, (k + 1) as u64, tables.frame_dsos[k], &tables.frames[k]) {
                Ok(()) => {},
                Err(e) => {
                    return Err(ConvertError::Json(e));
                },
            }
            k += 1;
        }
        let mut k: usize = 0;
        while k < tables.stacks.len()
            invariant
                self.stacks@.len() > 0,
                tables_ok(self.stacks@, tables),
                k <= tables.stacks@.len(),
                out@ == text_to_stacks(self.config, tables, k as int),
            decreases tables.stacks@.len() - k,
        {
            assert(agg_ok(self.stacks@, tables.frames@, tables.stacks@[k as int], self.stacks@.len() as int));
            match push_stack_line(&mut out, &self.config, &tables.stacks[k]) {
                Ok(()) => {},
                Err(e) => {
                    return Err(ConvertError::Json(e));
                },
            }
            k += 1;
        }
        assert(tables_ok(self.stacks@, tables) && out@ == spaa_text(self.config, tables));
        Ok(out)
    }
}

/// The sampling frequency of a conversion: the one given, where it is not
/// zero; with none given, the number after `profile-` in the event name,
/// where there is one.
pub fn frequency_for(event: &str, frequency: Option<u64>) -> (r: Option<u64>)
    ensures
        r == match frequency {
            Some(f) => if f == 0 { None } else { Some(f) },
            None => if seq_starts_with(event@, "profile-"@) {
                decimal_u64(event@.subrange(8, event@.len() as int))
            } else {
                None
            },
        },
{
    match frequency {
        Some(f) => if f == 0 {
            None
        } else {
            Some(f)
        },
        None => {
            if str_starts_with(event, "profile-") {
                proof {
                    reveal_strlit("profile-");
                }
                let n = event.unicode_len();
                parse_u64(event.substring_char(8, n))
            } else {
                None
            }
        },
    }
}

} // verus!

