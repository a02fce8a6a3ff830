//! Records of the SPAA stack-profile format.
use vstd::prelude::*;
use vstd::string::StringExecFns;
use crate::text::{bool_json, json_quoted, nat_decimal, push_bool, push_quoted, push_u64};

verus! {

/// The error type of std's I/O, carried through unchanged.
#[verifier::external_type_specification]
#[verifier::external_body]
pub struct ExIoError(std::io::Error);

/// Why a record could not be written.
#[derive(Debug)]
pub enum WriteError {
    Io(std::io::Error),
    Json(serde_json::Error),
}

/// Frame ordering within stacks.
#[derive(Clone, Copy, Debug, PartialEq, Eq, Structural)]
pub enum FrameOrder {
    LeafToRoot,
    RootToLeaf,
}

/// How stack ids are formed in a file.
#[derive(Clone, Copy, Debug, PartialEq, Eq, Structural)]
pub enum StackIdMode {
    ContentAddressable,
    Local,
}

/// How an event was sampled.
#[derive(Clone, Copy, Debug, PartialEq, Eq, Structural)]
pub enum SamplingMode {
    Period,
    Frequency,
    Event,
}

/// Event kind classification.
#[derive(Clone, Copy, Debug, PartialEq, Eq, Structural)]
pub enum EventKind {
    Hardware,
    Software,
    Allocation,
    Deallocation,
    Timer,
    Probe,
}

/// Sampling configuration of an event.
#[derive(Clone, Debug, PartialEq)]
pub struct Sampling {
    pub mode: SamplingMode,
    pub primary_metric: String,
    pub sample_period: Option<u64>,
    pub frequency_hz: Option<u64>,
}

/// Allocation tracking metadata.
#[derive(Clone, Debug, PartialEq)]
pub struct AllocationTracking {
    pub tracks_frees: bool,
    pub has_timestamps: bool,
}

/// Event definition of the header.
#[derive(Clone, Debug, PartialEq)]
pub struct EventDef {
    pub name: String,
    pub kind: EventKind,
    pub sampling: Sampling,
    pub allocation_tracking: Option<AllocationTracking>,
}

/// The tool that produced a profile.
#[derive(Clone, Debug, PartialEq)]
pub struct SourceInfo {
    pub tool: String,
    pub command: Option<String>,
    pub tool_version: Option<String>,
}

/// Dynamic shared object record.
#[derive(Clone, Debug, PartialEq)]
pub struct Dso {
    pub id: u64,
    pub name: String,
    pub build_id: Option<String>,
    pub is_kernel: bool,
}

/// Frame kind classification.
#[derive(Clone, Copy, Debug, PartialEq, Eq, Structural)]
pub enum FrameKind {
    User,
    Kernel,
    Unknown,
}

/// Stack frame record.
#[derive(Clone, Debug, PartialEq)]
pub struct Frame {
    pub id: u64,
    pub func: String,
    pub dso: u64,
    pub func_resolved: bool,
    pub ip: Option<String>,
    pub symoff: Option<String>,
    pub srcline: Option<String>,
    pub srcline_resolved: bool,
    pub inlined: bool,
    pub inline_depth: Option<u32>,
    pub kind: FrameKind,
}

/// Thread information record.
#[derive(Clone, Debug, PartialEq)]
pub struct Thread {
    pub pid: u64,
    pub tid: u64,
    pub comm: Option<String>,
}

/// Stack type classification.
#[derive(Clone, Copy, Debug, PartialEq, Eq, Structural)]
pub enum StackType {
    Unified,
    User,
    Kernel,
}

impl Default for StackType {
    fn default() -> (r: Self)
        ensures
            r == StackType::Unified,
    {
        StackType::Unified
    }
}

/// A measurement attributed to a stack.
#[derive(Clone, Debug, PartialEq)]
pub struct Weight {
    pub metric: String,
    pub value: u64,
    pub unit: Option<String>,
}

/// DTrace probe context.
#[derive(Clone, Debug, PartialEq)]
pub struct ProbeContext {
    pub provider: String,
    pub module: String,
    pub function: String,
    pub name: String,
}

/// Weights attributed to the leaf frame alone.
#[derive(Clone, Debug, PartialEq)]
pub struct ExclusiveWeights {
    pub frame: u64,
    pub weights: Vec<Weight>,
}

/// Weights of one stack within a time window.
#[derive(Clone, Debug, PartialEq)]
pub struct WindowStackWeight {
    pub stack_id: String,
    pub weights: Vec<Weight>,
}

/// A sink for SPAA records.
pub struct SpaaWriter<W> {
    writer: W,
}

impl<W> SpaaWriter<W> {
    pub closed spec fn inner(&self) -> W {
        self.writer
    }

    /// Creates a writer over `writer`.
    pub fn new(writer: W) -> (r: Self)
        ensures
            r.inner() == writer,
    {
        SpaaWriter { writer }
    }

    /// The underlying writer.
    pub fn get_ref(&self) -> (r: &W)
        ensures
            *r == self.inner(),
    {
        &self.writer
    }

    /// The underlying writer, for changes.
    pub fn get_mut(&mut self) -> (r: &mut W)
        ensures
            *r == old(self).inner(),
            final(self).inner() == *final(r),
    {
        &mut self.writer
    }

    /// Gives back the underlying writer.
    pub fn into_inner(self) -> (r: W)
        ensures
            r == self.inner(),
    {
        self.writer
    }
}

// ---------------------------------------------------------------------------
// JSON text of the records, with keys in sorted order
// ---------------------------------------------------------------------------

/// `,"name":` and the JSON string of `v`, or nothing.
pub open spec fn opt_str_json(name: Seq<char>, v: Option<String>) -> Seq<char> {
    match v {
        Some(x) => name + json_quoted(x@),
        None => Seq::empty(),
    }
}

/// `,"name":` and the number `v`, or nothing.
pub open spec fn opt_u64_json(name: Seq<char>, v: Option<u64>) -> Seq<char> {
    match v {
        Some(x) => name + nat_decimal(x as nat),
        None => Seq::empty(),
    }
}

pub open spec fn sampling_mode_json(m: SamplingMode) -> Seq<char> {
    match m {
        SamplingMode::Period => "\"period\""@,
        SamplingMode::Frequency => "\"frequency\""@,
        SamplingMode::Event => "\"event\""@,
    }
}

pub open spec fn event_kind_json(k: EventKind) -> Seq<char> {
    match k {
        EventKind::Hardware => "\"hardware\""@,
        EventKind::Software => "\"software\""@,
        EventKind::Allocation => "\"allocation\""@,
        EventKind::Deallocation => "\"deallocation\""@,
        EventKind::Timer => "\"timer\""@,
        EventKind::Probe => "\"probe\""@,
    }
}

pub open spec fn weight_json(w: Weight) -> Seq<char> {
    "{\"metric\":"@ + json_quoted(w.metric@) + opt_str_json(",\"unit\":"@, w.unit) + ",\"value\":"@ + nat_decimal(
        w.value as nat,
    ) + "}"@
}

/// The weights of `ws` before the `k`-th, separated by commas.
pub open spec fn weights_json(ws: Seq<Weight>, k: int) -> Seq<char>
    decreases k,
{
    if k <= 0 || k > ws.len() {
        Seq::empty()
    } else if k == 1 {
        weight_json(ws[0])
    } else {
        weights_json(ws, k - 1) + ","@ + weight_json(ws[k - 1])
    }
}

pub open spec fn weight_list_json(ws: Seq<Weight>) -> Seq<char> {
    "["@ + weights_json(ws, ws.len() as int) + "]"@
}

pub open spec fn sampling_json(s: Sampling) -> Seq<char> {
    let head = match s.frequency_hz {
        Some(f) => "{\"frequency_hz\":"@ + nat_decimal(f as nat) + ",\"mode\":"@,
        None => "{\"mode\":"@,
    };
    head + sampling_mode_json(s.mode) + ",\"primary_metric\":"@ + json_quoted(s.primary_metric@) + opt_u64_json(
        ",\"sample_period\":"@,
        s.sample_period,
    ) + "}"@
}

pub open spec fn event_head_json(e: EventDef) -> Seq<char> {
    match e.allocation_tracking {
        Some(a) => "{\"allocation_tracking\":{\"has_timestamps\":"@ + bool_json(a.has_timestamps) + ",\"tracks_frees\":"@
            + bool_json(a.tracks_frees) + "},\"kind\":"@,
        None => "{\"kind\":"@,
    }
}

pub open spec fn event_json(e: EventDef) -> Seq<char> {
    event_head_json(e) + event_kind_json(e.kind) + ",\"name\":"@ + json_quoted(e.name@) + ",\"sampling\":"@ + sampling_json(e.sampling)
        + "}"@
}

pub open spec fn source_json(s: SourceInfo) -> Seq<char> {
    let head = match s.command {
        Some(c) => "{\"command\":"@ + json_quoted(c@) + ",\"tool\":"@,
        None => "{\"tool\":"@,
    };
    head + json_quoted(s.tool@) + opt_str_json(",\"tool_version\":"@, s.tool_version) + "}"@
}

fn push_opt_str(out: &mut String, name: &str, v: &Option<String>) -> (r: Result<(), serde_json::Error>)
    ensures
        r is Ok && final(out)@ == old(out)@ + opt_str_json(name@, *v),
{
    let ghost o = out@;
    match v {
        Some(x) => {
            out.append(name);
            match push_quoted(out, x.as_str()) {
                Ok(()) => {},
                Err(e) => {
                    return Err(e);
                },
            }
            assert(out@ =~= o + opt_str_json(name@, *v));
        },
        None => {
            assert(out@ =~= o + opt_str_json(name@, *v));
        },
    }
    Ok(())
}

fn push_opt_u64(out: &mut String, name: &str, v: Option<u64>)
    ensures
        final(out)@ == old(out)@ + opt_u64_json(name@, v),
{
    let ghost o = out@;
    match v {
        Some(x) => {
            out.append(name);
            push_u64(out, x);
            assert(out@ =~= o + opt_u64_json(name@, v));
        },
        None => {
            assert(out@ =~= o + opt_u64_json(name@, v));
        },
    }
}

impl Weight {
    /// Appends the JSON object of this weight to `out`.
    #[verifier::rlimit(40)]
    pub fn push_json(&self, out: &mut String) -> (r: Result<(), serde_json::Error>)
        ensures
            r is Ok && final(out)@ == old(out)@ + weight_json(*self),
    {
        let ghost o = out@;
        out.append("{\"metric\":");
        match push_quoted(out, self.metric.as_str()) {
            Ok(()) => {},
            Err(e) => {
                return Err(e);
            },
        }
        match push_opt_str(out, ",\"unit\":", &self.unit) {
            Ok(()) => {},
            Err(e) => {
                return Err(e);
            },
        }
        out.append(",\"value\":");
        push_u64(out, self.value);
        out.append("}");
        assert(out@ =~= o + weight_json(*self));
        Ok(())
    }
}

/// Appends the JSON array of `ws` to `out`.
#[verifier::rlimit(40)]
pub fn push_weights(out: &mut String, ws: &Vec<Weight>) -> (r: Result<(), serde_json::Error>)
    ensures
        r is Ok && final(out)@ == old(out)@ + weight_list_json(ws@),
{
    let ghost o = out@;
    out.append("[");
    let mut k: usize = 0;
    while k < ws.len()
        invariant
            k <= ws@.len(),
            out@ == o + "["@ + weights_json(ws@, k as int),
        decreases ws@.len() - k,
    {
        let ghost before = out@;
        if k > 0 {
            out.append(",");
        }
        match ws[k].push_json(out) {
            Ok(()) => {},
            Err(e) => {
                return Err(e);
            },
        }
        proof {
            if k == 0 {
                assert(weights_json(ws@, 0) =~= Seq::<char>::empty());
                assert(out@ =~= o + "["@ + weights_json(ws@, 1));
            } else {
                assert(out@ =~= o + "["@ + weights_json(ws@, k as int + 1));
            }
        }
        k += 1;
    }
    out.append("]");
    assert(out@ =~= o + weight_list_json(ws@));
    Ok(())
}

impl Sampling {
    /// Appends the JSON object of this sampling configuration to `out`.
    #[verifier::rlimit(40)]
    pub fn push_json(&self, out: &mut String) -> (r: Result<(), serde_json::Error>)
        ensures
            r is Ok && final(out)@ == old(out)@ + sampling_json(*self),
    {
        let ghost o = out@;
        match self.frequency_hz {
            Some(f) => {
                out.append("{\"frequency_hz\":");
                push_u64(out, f);
                out.append(",\"mode\":");
            },
            None => {
                out.append("{\"mode\":");
            },
        }
        match self.mode {
            SamplingMode::Period => out.append("\"period\""),
            SamplingMode::Frequency => out.append("\"frequency\""),
            SamplingMode::Event => out.append("\"event\""),
        }
        out.append(",\"primary_metric\":");
        match push_quoted(out, self.primary_metric.as_str()) {
            Ok(()) => {},
            Err(e) => {
                return Err(e);
            },
        }
        push_opt_u64(out, ",\"sample_period\":", self.sample_period);
        out.append("}");
        assert(out@ =~= o + sampling_json(*self));
        Ok(())
    }
}

impl EventDef {
    /// Appends the JSON object of this event definition to `out`.
    #[verifier::rlimit(40)]
    pub fn push_json(&self, out: &mut String) -> (r: Result<(), serde_json::Error>)
        ensures
            r is Ok && final(out)@ == old(out)@ + event_json(*self),
    {
        let ghost o = out@;
        match &self.allocation_tracking {
            Some(a) => {
                out.append("{\"allocation_tracking\":{\"has_timestamps\":");
                push_bool(out, a.has_timestamps);
                out.append(",\"tracks_frees\":");
                push_bool(out, a.tracks_frees);
                out.append("},\"kind\":");
            },
            None => {
                out.append("{\"kind\":");
            },
        }
        assert(out@ =~= o + event_head_json(*self));
        let ghost o2 = out@;
        match self.kind {
            EventKind::Hardware => out.append("\"hardware\""),
            EventKind::Software => out.append("\"software\""),
            EventKind::Allocation => out.append("\"allocation\""),
            EventKind::Deallocation => out.append("\"deallocation\""),
            EventKind::Timer => out.append("\"timer\""),
            EventKind::Probe => out.append("\"probe\""),
        }
        assert(out@ =~= o2 + event_kind_json(self.kind));
        out.append(",\"name\":");
        match push_quoted(out, self.name.as_str()) {
            Ok(()) => {},
            Err(e) => {
                return Err(e);
            },
        }
        out.append(",\"sampling\":");
        match self.sampling.push_json(out) {
            Ok(()) => {},
            Err(e) => {
                return Err(e);
            },
        }
        out.append("}");
        assert(out@ =~= o2 + event_kind_json(self.kind) + ",\"name\":"@ + json_quoted(self.name@) + ",\"sampling\":"@
            + sampling_json(self.sampling) + "}"@);
        assert(out@ =~= o + event_json(*self));
        Ok(())
    }
}

impl SourceInfo {
    /// Appends the JSON object of this source description to `out`.
    #[verifier::rlimit(40)]
    pub fn push_json(&self, out: &mut String) -> (r: Result<(), serde_json::Error>)
        ensures
            r is Ok && final(out)@ == old(out)@ + source_json(*self),
    {
        let ghost o = out@;
        match &self.command {
            Some(c) => {
                out.append("{\"command\":");
                match push_quoted(out, c.as_str()) {
                    Ok(()) => {},
                    Err(e) => {
                        return Err(e);
                    },
                }
                out.append(",\"tool\":");
            },
            None => {
                out.append("{\"tool\":");
            },
        }
        match push_quoted(out, self.tool.as_str()) {
            Ok(()) => {},
            Err(e) => {
                return Err(e);
            },
        }
        match push_opt_str(out, ",\"tool_version\":", &self.tool_version) {
            Ok(()) => {},
            Err(e) => {
                return Err(e);
            },
        }
        out.append("}");
        assert(out@ =~= o + source_json(*self));
        Ok(())
    }
}

// ---------------------------------------------------------------------------
// Dictionary records as the writer emits them: the type tag first, then the
// fields in declaration order
// ---------------------------------------------------------------------------

pub open spec fn frame_kind_json(k: FrameKind) -> Seq<char> {
    match k {
        FrameKind::User => "\"user\""@,
        FrameKind::Kernel => "\"kernel\""@,
        FrameKind::Unknown => "\"unknown\""@,
    }
}

/// The line of a module record.
pub open spec fn dso_record_json(d: Dso) -> Seq<char> {
    "{\"type\":\"dso\",\"id\":"@ + nat_decimal(d.id as nat) + ",\"name\":"@ + json_quoted(d.name@) + opt_str_json(
        ",\"build_id\":"@,
        d.build_id,
    ) + ",\"is_kernel\":"@ + bool_json(d.is_kernel) + "}\n"@
}

/// The line of a frame record.
pub open spec fn frame_record_json(f: Frame) -> Seq<char> {
    "{\"type\":\"frame\",\"id\":"@ + nat_decimal(f.id as nat) + ",\"func\":"@ + json_quoted(f.func@) + ",\"dso\":"@
        + nat_decimal(f.dso as nat) + ",\"func_resolved\":"@ + bool_json(f.func_resolved) + opt_str_json(",\"ip\":"@, f.ip)
        + opt_str_json(",\"symoff\":"@, f.symoff) + opt_str_json(",\"srcline\":"@, f.srcline) + ",\"srcline_resolved\":"@
        + bool_json(f.srcline_resolved) + ",\"inlined\":"@ + bool_json(f.inlined) + opt_u64_json(
        ",\"inline_depth\":"@,
        match f.inline_depth {
            Some(x) => Some(x as u64),
            None => None,
        },
    ) + ",\"kind\":"@ + frame_kind_json(f.kind) + "}\n"@
}

/// The line of a thread record.
pub open spec fn thread_record_json(t: Thread) -> Seq<char> {
    "{\"type\":\"thread\",\"pid\":"@ + nat_decimal(t.pid as nat) + ",\"tid\":"@ + nat_decimal(t.tid as nat) + opt_str_json(
        ",\"comm\":"@,
        t.comm,
    ) + "}\n"@
}

impl Dso {
    /// The record line of this module.
    #[verifier::rlimit(40)]
    pub fn record_line(&self) -> (r: Result<String, serde_json::Error>)
        ensures
            r matches Ok(t) && t@ == dso_record_json(*self),
    {
        let mut out = String::new();
        out.append("{\"type\":\"dso\",\"id\":");
        push_u64(&mut out, self.id);
        out.append(",\"name\":");
        match push_quoted(&mut out, self.name.as_str()) {
            Ok(()) => {},
            Err(e) => {
                return Err(e);
            },
        }
        match push_opt_str(&mut out, ",\"build_id\":", &self.build_id) {
            Ok(()) => {},
            Err(e) => {
                return Err(e);
            },
        }
        out.append(",\"is_kernel\":");
        push_bool(&mut out, self.is_kernel);
        out.append("}\n");
        assert(out@ =~= dso_record_json(*self));
        Ok(out)
    }
}

impl Frame {
    /// The record line of this frame.
    #[verifier::rlimit(40)]
    pub fn record_line(&self) -> (r: Result<String, serde_json::Error>)
        ensures
            r matches Ok(t) && t@ == frame_record_json(*self),
    {
        let mut out = String::new();
        out.append("{\"type\":\"frame\",\"id\":");
        push_u64(&mut out, self.id);
        out.append(",\"func\":");
        match push_quoted(&mut out, self.func.as_str()) {
            Ok(()) => {},
            Err(e) => {
                return Err(e);
            },
        }
        out.append(",\"dso\":");
        push_u64(&mut out, self.dso);
        out.append(",\"func_resolved\":");
        push_bool(&mut out, self.func_resolved);
        let ghost o1 = out@;
        match push_opt_str(&mut out, ",\"ip\":", &self.ip) {
            Ok(()) => {},
            Err(e) => {
                return Err(e);
            },
        }
        match push_opt_str(&mut out, ",\"symoff\":", &self.symoff) {
            Ok(()) => {},
            Err(e) => {
                return Err(e);
            },
        }
        match push_opt_str(&mut out, ",\"srcline\":", &self.srcline) {
            Ok(()) => {},
            Err(e) => {
                return Err(e);
            },
        }
        let ghost o2 = out@;
        out.append(",\"srcline_resolved\":");
        push_bool(&mut out, self.srcline_resolved);
        out.append(",\"inlined\":");
        push_bool(&mut out, self.inlined);
        let depth = match self.inline_depth {
            Some(x) => Some(x as u64),
            None => None,
        };
        push_opt_u64(&mut out, ",\"inline_depth\":", depth);
        out.append(",\"kind\":");
        match self.kind {
            FrameKind::User => out.append("\"user\""),
            FrameKind::Kernel => out.append("\"kernel\""),
            FrameKind::Unknown => out.append("\"unknown\""),
        }
        out.append("}\n");
        assert(out@ =~= frame_record_json(*self));
        Ok(out)
    }
}

impl Thread {
    /// The record line of this thread.
    #[verifier::rlimit(40)]
    pub fn record_line(&self) -> (r: Result<String, serde_json::Error>)
        ensures
            r matches Ok(t) && t@ == thread_record_json(*self),
    {
        let mut out = String::new();
        out.append("{\"type\":\"thread\",\"pid\":");
        push_u64(&mut out, self.pid);
        out.append(",\"tid\":");
        push_u64(&mut out, self.tid);
        match push_opt_str(&mut out, ",\"comm\":", &self.comm) {
            Ok(()) => {},
            Err(e) => {
                return Err(e);
            },
        }
        out.append("}\n");
        assert(out@ =~= thread_record_json(*self));
        Ok(out)
    }
}

/// Relies on `Write::write_all`: writes the bytes of `text`, or fails with
/// the I/O error.
#[verifier::external_body]
fn write_text<W: std::io::Write>(w: &mut W, text: &str) -> (r: Result<(), std::io::Error>) {
    w.write_all(text.as_bytes())
}

impl<W: std::io::Write> SpaaWriter<W> {
    /// Writes the record line of a module.
    pub fn write_dso(&mut self, dso: &Dso) -> (r: Result<(), WriteError>) {
        match dso.record_line() {
            Ok(line) => match write_text(&mut self.writer, line.as_str()) {
                Ok(()) => Ok(()),
                Err(e) => Err(WriteError::Io(e)),
            },
            Err(e) => Err(WriteError::Json(e)),
        }
    }

    /// Writes the record line of a frame.
    pub fn write_frame(&mut self, frame: &Frame) -> (r: Result<(), WriteError>) {
        match frame.record_line() {
            Ok(line) => match write_text(&mut self.writer, line.as_str()) {
                Ok(()) => Ok(()),
                Err(e) => Err(WriteError::Io(e)),
            },
            Err(e) => Err(WriteError::Json(e)),
        }
    }

    /// Writes the record line of a thread.
    pub fn write_thread(&mut self, thread: &Thread) -> (r: Result<(), WriteError>) {
        match thread.record_line() {
            Ok(line) => match write_text(&mut self.writer, line.as_str()) {
                Ok(()) => Ok(()),
                Err(e) => Err(WriteError::Io(e)),
            },
            Err(e) => Err(WriteError::Json(e)),
        }
    }
}

} // verus!
