//! Stage descriptors: what a stage computes, where its output goes and how
//! its input arrives, with the byte form that carries them to each cold start.
use crate::codec::{lemma_parse_list, lemma_parse_list_none, list_bytes, parse_list, str_elem, str_fn};
use crate::wire::{
    get_str, get_u64, holds_at, le, lemma_holds_at_split, lemma_le_len, lemma_parse_str, lemma_parse_u64,
    parse_str, parse_u64, put_str, put_u64, str_bytes, str_fits,
};
use vstd::prelude::*;
use vstd::slice::{slice_subrange, slice_to_vec};

verus! {

/// Where a stage sends its output.
pub enum RoutingDescriptor {
    /// The stage is a sink.
    Terminal,
    /// One downstream stage, by name.
    Single(String),
    /// A named group of downstream functions, one per output partition.
    Group(String, Vec<String>),
}

pub enum RoutingView {
    Terminal,
    Single(Seq<char>),
    Group(Seq<char>, Seq<Seq<char>>),
}

/// How the input of a stage arrives.
#[derive(PartialEq, Eq, Structural, Clone, Copy, Debug)]
pub enum InputArrangement {
    /// Records shaped by an outside source; only the first stage.
    ExternalEvent,
    /// Encoded payloads from an upstream stage.
    UpstreamPayload,
}

/// One stage of a pipeline.
pub struct StageDescriptor {
    /// The compute sub-plan, as the compute engine serialized it.
    pub sub_plan: Vec<u8>,
    pub stage_name: String,
    pub routing: RoutingDescriptor,
    pub input: InputArrangement,
    pub debug: bool,
}

pub struct DescriptorView {
    pub sub_plan: Seq<u8>,
    pub stage_name: Seq<char>,
    pub routing: RoutingView,
    pub input: InputArrangement,
    pub debug: bool,
}

/// Why a descriptor could not be rehydrated.
#[derive(PartialEq, Eq, Structural, Clone, Copy, Debug)]
pub enum DescriptorError {
    /// The environment holds no descriptor.
    Absent,
    /// The bytes are not a descriptor.
    Malformed,
}

pub open spec fn names_view(names: Seq<String>) -> Seq<Seq<char>> {
    names.map_values(|s: String| s@)
}

impl View for RoutingDescriptor {
    type V = RoutingView;

    open spec fn view(&self) -> RoutingView {
        match self {
            RoutingDescriptor::Terminal => RoutingView::Terminal,
            RoutingDescriptor::Single(t) => RoutingView::Single(t@),
            RoutingDescriptor::Group(g, ms) => RoutingView::Group(g@, names_view(ms@)),
        }
    }
}

impl View for StageDescriptor {
    type V = DescriptorView;

    open spec fn view(&self) -> DescriptorView {
        DescriptorView {
            sub_plan: self.sub_plan@,
            stage_name: self.stage_name@,
            routing: self.routing@,
            input: self.input,
            debug: self.debug,
        }
    }
}

/// Stages that end a fan-in gather their fragments before computing: those
/// routed to a sink or to a single stage.
pub open spec fn requires_reassembly(r: RoutingView) -> bool {
    r is Terminal || r is Single
}

/// The names of the functions that receive a stage's output.
pub open spec fn targets(r: RoutingView) -> Seq<Seq<char>> {
    match r {
        RoutingView::Terminal => Seq::empty(),
        RoutingView::Single(t) => seq![t],
        RoutingView::Group(_, ms) => ms,
    }
}

/// Whether a stage routed by `r` must gather fragments before computing.
pub fn routing_requires_reassembly(d: &StageDescriptor) -> (r: bool)
    ensures
        r == requires_reassembly(d@.routing),
{
    match &d.routing {
        RoutingDescriptor::Terminal => true,
        RoutingDescriptor::Single(_) => true,
        RoutingDescriptor::Group(_, _) => false,
    }
}

fn clone_names(names: &Vec<String>) -> (r: Vec<String>)
    ensures
        names_view(r@) == names_view(names@),
{
    let mut out: Vec<String> = Vec::new();
    let mut i: usize = 0;
    while i < names.len()
        invariant
            i <= names@.len(),
            names_view(out@) == names_view(names@).take(i as int),
        decreases names.len() - i,
    {
        let ghost before = names_view(out@);
        out.push(names[i].clone());
        assert(names_view(out@) =~= before.push(names@[i as int]@));
        assert(names_view(names@).take(i + 1) =~= names_view(names@).take(i as int).push(names@[i as int]@));
        i = i + 1;
    }
    assert(names_view(names@).take(names@.len() as int) =~= names_view(names@));
    out
}

/// The functions that the stage's output goes to: none for a sink, the one
/// target of a single route, every member of a group in order.
pub fn next_targets(d: &StageDescriptor) -> (r: Vec<String>)
    ensures
        names_view(r@) == targets(d@.routing),
{
    match &d.routing {
        RoutingDescriptor::Terminal => {
            let r: Vec<String> = Vec::new();
            assert(names_view(r@) =~= Seq::<Seq<char>>::empty());
            r
        },
        RoutingDescriptor::Single(t) => {
            let mut r: Vec<String> = Vec::new();
            r.push(t.clone());
            assert(names_view(r@) =~= seq![t@]);
            r
        },
        RoutingDescriptor::Group(_, ms) => clone_names(ms),
    }
}

/// Reads one byte at `pos`.
pub open spec fn parse_byte(s: Seq<u8>, pos: int) -> Option<(u8, int)> {
    if 0 <= pos < s.len() {
        Some((s[pos], pos + 1))
    } else {
        None
    }
}

/// A byte string on the wire: its length, then its bytes.
pub open spec fn blob_bytes(b: Seq<u8>) -> Seq<u8> {
    le(b.len() as u64) + b
}

pub open spec fn parse_blob(s: Seq<u8>, pos: int) -> Option<(Seq<u8>, int)> {
    match parse_u64(s, pos) {
        Some((n, p)) => if p + n <= s.len() {
            Some((s.subrange(p, p + n), p + n))
        } else {
            None
        },
        None => None,
    }
}

pub open spec fn routing_bytes(r: RoutingView) -> Seq<u8> {
    match r {
        RoutingView::Terminal => seq![0u8],
        RoutingView::Single(t) => seq![1u8] + str_bytes(t),
        RoutingView::Group(g, ms) => seq![2u8] + str_bytes(g) + le(ms.len() as u64) + list_bytes(ms, str_fn()),
    }
}

pub open spec fn parse_routing(s: Seq<u8>, pos: int) -> Option<(RoutingView, int)> {
    match parse_byte(s, pos) {
        None => None,
        Some((tag, p)) => if tag == 0 {
            Some((RoutingView::Terminal, p))
        } else if tag == 1 {
            match parse_str(s, p) {
                Some((t, q)) => Some((RoutingView::Single(t), q)),
                None => None,
            }
        } else if tag == 2 {
            match parse_str(s, p) {
                None => None,
                Some((g, q)) => match parse_u64(s, q) {
                    None => None,
                    Some((n, q2)) => match parse_list(s, q2, n as nat, str_elem()) {
                        Some((ms, q3)) => Some((RoutingView::Group(g, ms), q3)),
                        None => None,
                    },
                },
            }
        } else {
            None
        },
    }
}

pub open spec fn input_tag(i: InputArrangement) -> u8 {
    match i {
        InputArrangement::ExternalEvent => 0,
        InputArrangement::UpstreamPayload => 1,
    }
}

/// A descriptor on the wire: name, sub-plan, routing, input tag, debug flag.
pub open spec fn descriptor_bytes(d: DescriptorView) -> Seq<u8> {
    str_bytes(d.stage_name) + blob_bytes(d.sub_plan) + routing_bytes(d.routing) + seq![
        input_tag(d.input),
        if d.debug {
            1u8
        } else {
            0u8
        },
    ]
}

/// Reads a whole descriptor, with nothing after it.
pub open spec fn parse_descriptor(s: Seq<u8>) -> Option<DescriptorView> {
    match parse_str(s, 0) {
        None => None,
        Some((name, p1)) => match parse_blob(s, p1) {
            None => None,
            Some((plan, p2)) => match parse_routing(s, p2) {
                None => None,
                Some((routing, p3)) => if p3 + 2 == s.len() && s[p3] <= 1 && s[p3 + 1] <= 1 {
                    Some(
                        DescriptorView {
                            sub_plan: plan,
                            stage_name: name,
                            routing,
                            input: if s[p3] == 0 {
                                InputArrangement::ExternalEvent
                            } else {
                                InputArrangement::UpstreamPayload
                            },
                            debug: s[p3 + 1] == 1,
                        },
                    )
                } else {
                    None
                },
            },
        },
    }
}

/// A descriptor can be written and read back: its lengths fit their prefixes.
pub open spec fn descriptor_fits(d: DescriptorView) -> bool {
    &&& str_fits(d.stage_name)
    &&& d.sub_plan.len() <= u64::MAX
    &&& match d.routing {
        RoutingView::Terminal => true,
        RoutingView::Single(t) => str_fits(t),
        RoutingView::Group(g, ms) => str_fits(g) && ms.len() <= u64::MAX && forall|i: int|
            0 <= i < ms.len() ==> str_fits(#[trigger] ms[i]),
    }
}

proof fn lemma_parse_routing(s: Seq<u8>, pos: int, r: RoutingView)
    requires
        holds_at(s, pos, routing_bytes(r)),
        descriptor_fits(DescriptorView {
            sub_plan: Seq::empty(),
            stage_name: Seq::empty(),
            routing: r,
            input: InputArrangement::ExternalEvent,
            debug: false,
        }),
    ensures
        parse_routing(s, pos) == Some((r, pos + routing_bytes(r).len())),
{
    assert(s[pos] == routing_bytes(r)[0]);
    vstd::utf8::encode_utf8_valid_utf8(Seq::<char>::empty());
    match r {
        RoutingView::Terminal => {},
        RoutingView::Single(t) => {
            lemma_holds_at_split(s, pos, seq![1u8], str_bytes(t));
            lemma_parse_str(s, pos + 1, t);
        },
        RoutingView::Group(g, ms) => {
            let a = seq![2u8];
            let b = str_bytes(g);
            let c = le(ms.len() as u64);
            let d = list_bytes(ms, str_fn());
            lemma_le_len(ms.len() as u64);
            lemma_holds_at_split(s, pos, a + b + c, d);
            lemma_holds_at_split(s, pos, a + b, c);
            lemma_holds_at_split(s, pos, a, b);
            lemma_parse_str(s, pos + 1, g);
            lemma_parse_u64(s, pos + 1 + b.len(), ms.len() as u64);
            assert forall|i: int, q: int|
                0 <= i < ms.len() && #[trigger] holds_at(s, q, str_fn()(ms[i])) implies str_elem()(s, q) == Some(
                (ms[i], q + str_fn()(ms[i]).len()),
            ) by {
                lemma_parse_str(s, q, ms[i]);
            }
            lemma_parse_list(s, pos + 1 + b.len() + 8, ms, str_fn(), str_elem());
        },
    }
}

/// Reading back the bytes of a descriptor gives the descriptor.
pub proof fn lemma_descriptor_round_trip(d: DescriptorView)
    requires
        descriptor_fits(d),
    ensures
        parse_descriptor(descriptor_bytes(d)) == Some(d),
{
    let s = descriptor_bytes(d);
    let a = str_bytes(d.stage_name);
    let b = blob_bytes(d.sub_plan);
    let c = routing_bytes(d.routing);
    let e = seq![input_tag(d.input), if d.debug { 1u8 } else { 0u8 }];
    assert(s.subrange(0, s.len() as int) =~= s);
    lemma_holds_at_split(s, 0, a + b + c, e);
    lemma_holds_at_split(s, 0, a + b, c);
    lemma_holds_at_split(s, 0, a, b);
    lemma_parse_str(s, 0, d.stage_name);
    lemma_le_len(d.sub_plan.len() as u64);
    lemma_holds_at_split(s, a.len() as int, le(d.sub_plan.len() as u64), d.sub_plan);
    lemma_parse_u64(s, a.len() as int, d.sub_plan.len() as u64);
    lemma_parse_routing(s, (a.len() + b.len()) as int, d.routing);
    let p3 = (a.len() + b.len() + c.len()) as int;
    assert(s[p3] == e[0]);
    assert(s[p3 + 1] == e[1]);
}

fn put_names(out: &mut Vec<u8>, names: &Vec<String>)
    ensures
        final(out)@ == old(out)@ + list_bytes(names_view(names@), str_fn()),
        forall|i: int| 0 <= i < names@.len() ==> str_fits(#[trigger] names_view(names@)[i]),
{
    let ghost start = out@;
    let ghost v = names_view(names@);
    let mut i: usize = 0;
    while i < names.len()
        invariant
            i <= names@.len(),
            v == names_view(names@),
            out@ == start + list_bytes(v.take(i as int), str_fn()),
            forall|k: int| 0 <= k < i ==> str_fits(#[trigger] v[k]),
        decreases names.len() - i,
    {
        put_str(out, &names[i]);
        proof {
            assert(v.take(i + 1).drop_last() =~= v.take(i as int));
            assert(out@ =~= start + list_bytes(v.take(i + 1), str_fn()));
        }
        i = i + 1;
    }
    assert(v.take(names@.len() as int) =~= v);
}

#[verifier::loop_isolation(false)]
fn get_names(buf: &[u8], pos: usize, n: u64) -> (r: Option<(Vec<String>, usize)>)
    ensures
        match r {
            Some((names, p)) => parse_list(buf@, pos as int, n as nat, str_elem()) == Some(
                (names_view(names@), p as int),
            ),
            None => parse_list(buf@, pos as int, n as nat, str_elem()) is None,
        },
{
    let mut names: Vec<String> = Vec::new();
    let mut cur = pos;
    let mut i: u64 = 0;
    while i < n
        invariant
            i <= n,
            parse_list(buf@, pos as int, i as nat, str_elem()) == Some((names_view(names@), cur as int)),
        decreases n - i,
    {
        match get_str(buf, cur) {
            None => {
                proof {
                    lemma_parse_list_none(buf@, pos as int, (i + 1) as nat, n as nat, str_elem());
                }
                return None;
            },
            Some((name, next)) => {
                let ghost before = names_view(names@);
                names.push(name);
                assert(names_view(names@) =~= before.push(name@));
                cur = next;
            },
        }
        i = i + 1;
    }
    Some((names, cur))
}

/// The bytes that carry a descriptor to the activations of its stage.
pub fn encode_descriptor(d: &StageDescriptor) -> (r: Vec<u8>)
    ensures
        r@ == descriptor_bytes(d@),
        descriptor_fits(d@),
{
    let mut out: Vec<u8> = Vec::new();
    put_str(&mut out, &d.stage_name);
    put_u64(&mut out, d.sub_plan.len() as u64);
    out.extend_from_slice(d.sub_plan.as_slice());
    let ghost head = out@;
    match &d.routing {
        RoutingDescriptor::Terminal => out.push(0u8),
        RoutingDescriptor::Single(t) => {
            out.push(1u8);
            put_str(&mut out, t);
        },
        RoutingDescriptor::Group(g, ms) => {
            out.push(2u8);
            put_str(&mut out, g);
            put_u64(&mut out, ms.len() as u64);
            put_names(&mut out, ms);
        },
    }
    proof {
        assert(out@ =~= head + routing_bytes(d@.routing));
    }
    out.push(
        match d.input {
            InputArrangement::ExternalEvent => 0u8,
            InputArrangement::UpstreamPayload => 1u8,
        },
    );
    out.push(if d.debug { 1u8 } else { 0u8 });
    assert(out@ =~= descriptor_bytes(d@));
    out
}

/// Rebuilds a descriptor from its bytes, exactly as `parse_descriptor`
/// reads them; any other bytes are `Malformed`.
#[verifier::loop_isolation(false)]
pub fn rehydrate(raw: &[u8]) -> (r: Result<StageDescriptor, DescriptorError>)
    ensures
        match parse_descriptor(raw@) {
            Some(d) => r matches Ok(x) && x@ == d,
            None => r matches Err(e) && e == DescriptorError::Malformed,
        },
{
    let (stage_name, p1) = match get_str(raw, 0) {
        None => return Err(DescriptorError::Malformed),
        Some(x) => x,
    };
    let (n, p) = match get_u64(raw, p1) {
        None => return Err(DescriptorError::Malformed),
        Some(x) => x,
    };
    if n > (raw.len() - p) as u64 {
        return Err(DescriptorError::Malformed);
    }
    let p2 = p + n as usize;
    let sub_plan = slice_to_vec(slice_subrange(raw, p, p2));
    if p2 >= raw.len() {
        return Err(DescriptorError::Malformed);
    }
    let tag = raw[p2];
    let (routing, p3) = if tag == 0 {
        (RoutingDescriptor::Terminal, p2 + 1)
    } else if tag == 1 {
        match get_str(raw, p2 + 1) {
            None => return Err(DescriptorError::Malformed),
            Some((t, q)) => (RoutingDescriptor::Single(t), q),
        }
    } else if tag == 2 {
        let (g, q) = match get_str(raw, p2 + 1) {
            None => return Err(DescriptorError::Malformed),
            Some(x) => x,
        };
        let (m, q2) = match get_u64(raw, q) {
            None => return Err(DescriptorError::Malformed),
            Some(x) => x,
        };
        match get_names(raw, q2, m) {
            None => return Err(DescriptorError::Malformed),
            Some((ms, q3)) => (RoutingDescriptor::Group(g, ms), q3),
        }
    } else {
        return Err(DescriptorError::Malformed);
    };
    assert(parse_routing(raw@, p2 as int) == Some((routing@, p3 as int)));
    if p3 >= raw.len() || raw.len() - p3 != 2 || raw[p3] > 1 || raw[p3 + 1] > 1 {
        return Err(DescriptorError::Malformed);
    }
    let input = if raw[p3] == 0 {
        InputArrangement::ExternalEvent
    } else {
        InputArrangement::UpstreamPayload
    };
    Ok(StageDescriptor { sub_plan, stage_name, routing, input, debug: raw[p3 + 1] == 1 })
}

} // verus!
