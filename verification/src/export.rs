//! The Graphviz DOT text of a colored verification net: places styled by
//! their kind, transitions labelled and coloured by what they do, and an
//! edge per input and output arc, labelled with its weight when that is not
//! one.
use vstd::prelude::*;

use crate::analysis::timed::reachability::{escape_dot, escaped};
use crate::cvn::kinds::{ControlSub, PlaceKind, ResourceType, TransitionKind};
use crate::cvn::net::{Arc, CvnNet};
use crate::ids::TransitionId;
use crate::pt::ArcDir;
use crate::text::{decimal, push_decimal, push_str};

verus! {

/// The shape and fill colour of a place of kind `kind`.
pub open spec fn place_style_spec(kind: PlaceKind) -> (Seq<char>, Seq<char>) {
    match kind {
        PlaceKind::Resource(_) => ("box"@, "#c8e6c9"@),
        PlaceKind::Control(ControlSub::WaitPoint) => ("diamond"@, "#ffe0b2"@),
        _ => ("circle"@, "#e3f2fd"@),
    }
}

/// The fill colour of a transition of kind `kind`.
pub open spec fn transition_fill(kind: TransitionKind) -> Seq<char> {
    match kind {
        TransitionKind::Lock | TransitionKind::ReadLock | TransitionKind::Acquire => "#ffcdd2"@,
        TransitionKind::Unlock | TransitionKind::ReadUnlock | TransitionKind::Release => "#c8e6c9"@,
        TransitionKind::Spawn => "#fff9c4"@,
        TransitionKind::Join => "#b3e5fc"@,
        TransitionKind::Send | TransitionKind::Recv => "#d1c4e9"@,
        TransitionKind::CondvarWaitEnter | TransitionKind::CondvarNotify | TransitionKind::CondvarNotifyAll => "#ffe0b2"@,
        TransitionKind::Return | TransitionKind::FunctionExit => "#e0e0e0"@,
        TransitionKind::BranchTrue | TransitionKind::BranchFalse => "#f0f0f0"@,
        _ => "#ffe0b2"@,
    }
}

/// The second line of the label of a transition of kind `kind`: what it
/// does, the label of a switch arm, or nothing.
pub open spec fn transition_tag(kind: TransitionKind) -> Seq<char> {
    match kind {
        TransitionKind::Lock | TransitionKind::ReadLock | TransitionKind::Acquire => "lock"@,
        TransitionKind::Unlock | TransitionKind::ReadUnlock | TransitionKind::Release => "unlock"@,
        TransitionKind::Spawn => "spawn"@,
        TransitionKind::Join => "join"@,
        TransitionKind::Send => "send"@,
        TransitionKind::Recv => "recv"@,
        TransitionKind::CondvarWaitEnter => "cv_wait"@,
        TransitionKind::CondvarNotify | TransitionKind::CondvarNotifyAll => "cv_notify"@,
        TransitionKind::Return | TransitionKind::FunctionExit => "return"@,
        TransitionKind::BranchTrue | TransitionKind::BranchFalse => "branch"@,
        TransitionKind::Switch { label } => label@,
        _ => Seq::empty(),
    }
}

/// The second line of the label of a place of kind `kind`: the kind of
/// resource, `end` for the end of a function, `wait` for a wait point, or
/// nothing.
pub open spec fn kind_tag_spec(kind: PlaceKind) -> Seq<char> {
    match kind {
        PlaceKind::Resource(ResourceType::Mutex) => "mutex"@,
        PlaceKind::Resource(ResourceType::RwLock { .. }) => "rwlock"@,
        PlaceKind::Resource(ResourceType::Semaphore { .. }) => "sem"@,
        PlaceKind::Resource(ResourceType::Channel) => "ch"@,
        PlaceKind::Resource(ResourceType::Condvar) => "cv"@,
        PlaceKind::Control(ControlSub::FunctionEnd) => "end"@,
        PlaceKind::Control(ControlSub::WaitPoint) => "wait"@,
        _ => Seq::empty(),
    }
}

/// The DOT line of place `i`, named `name`, of kind `kind`.
pub open spec fn place_line(i: nat, name: Seq<char>, kind: PlaceKind) -> Seq<char> {
    "    p"@ + decimal(i) + " [label=\""@ + escaped(name) + "\\n"@ + kind_tag_spec(kind) + "\", shape="@
        + place_style_spec(kind).0 + ", style=filled, fillcolor=\""@ + place_style_spec(kind).1 + "\"];\n"@
}

/// The DOT line of transition `i`, named `name`, of kind `kind`.
pub open spec fn transition_line(i: nat, name: Seq<char>, kind: TransitionKind) -> Seq<char> {
    "    t"@ + decimal(i) + " [label=\""@ + escaped(name) + "\\n"@ + escaped(transition_tag(kind))
        + "\", shape=box, style=filled, fillcolor=\""@ + transition_fill(kind) + "\"];\n"@
}

/// The label of an arc of weight `w`: none for one.
pub open spec fn weight_label(w: usize) -> Seq<char> {
    if w == 1 {
        Seq::empty()
    } else {
        " [label=\""@ + decimal(w as nat) + "\"]"@
    }
}

/// The DOT lines of the places of `net` below `n`.
pub open spec fn place_lines(net: CvnNet, n: nat) -> Seq<char>
    decreases n,
{
    if n == 0 {
        Seq::empty()
    } else {
        place_lines(net, (n - 1) as nat) + place_line(
            (n - 1) as nat,
            net.places@[n - 1].name@,
            net.places@[n - 1].kind,
        )
    }
}

/// The DOT lines of the transitions of `net` below `n`.
pub open spec fn transition_lines(net: CvnNet, n: nat) -> Seq<char>
    decreases n,
{
    if n == 0 {
        Seq::empty()
    } else {
        transition_lines(net, (n - 1) as nat) + transition_line(
            (n - 1) as nat,
            net.transitions@[n - 1].name@,
            net.transitions@[n - 1].kind.kind,
        )
    }
}

/// The DOT line of arc `a` of transition `t` in direction `d`: from the
/// place for an input arc, to it for an output arc; nothing for any other
/// arc.
pub open spec fn arc_line(a: Arc, t: nat, d: ArcDir) -> Seq<char> {
    if a.transition.0 == t && a.direction == d {
        if d == ArcDir::Input {
            "    p"@ + decimal(a.place.0 as nat) + " -> t"@ + decimal(t) + weight_label(a.weight) + ";\n"@
        } else {
            "    t"@ + decimal(t) + " -> p"@ + decimal(a.place.0 as nat) + weight_label(a.weight) + ";\n"@
        }
    } else {
        Seq::empty()
    }
}

/// The lines of the arcs among the first `k` of `arcs` of transition `t`
/// in direction `d`, in order.
pub open spec fn arc_lines(arcs: Seq<Arc>, t: nat, d: ArcDir, k: nat) -> Seq<char>
    decreases k,
{
    if k == 0 {
        Seq::empty()
    } else {
        arc_lines(arcs, t, d, (k - 1) as nat) + arc_line(arcs[k - 1], t, d)
    }
}

/// The arc lines of the transitions below `n`: for each, its input arcs,
/// then its output arcs.
pub open spec fn all_arc_lines(net: CvnNet, n: nat) -> Seq<char>
    decreases n,
{
    if n == 0 {
        Seq::empty()
    } else {
        all_arc_lines(net, (n - 1) as nat) + arc_lines(net.arcs@, (n - 1) as nat, ArcDir::Input, net.arcs@.len())
            + arc_lines(net.arcs@, (n - 1) as nat, ArcDir::Output, net.arcs@.len())
    }
}

/// The DOT text of `net`.
pub open spec fn net_dot(net: CvnNet) -> Seq<char> {
    "digraph PetriNet {\n"@ + "    rankdir=LR;\n"@ + place_lines(net, net.places@.len()) + transition_lines(
        net,
        net.transitions@.len(),
    ) + all_arc_lines(net, net.transitions@.len()) + "}\n"@
}

/// The shape and fill colour of a place of kind `kind`.
fn place_style(kind: &PlaceKind) -> (r: (&'static str, &'static str))
    ensures
        r.0@ == place_style_spec(*kind).0,
        r.1@ == place_style_spec(*kind).1,
{
    match kind {
        PlaceKind::Resource(_) => ("box", "#c8e6c9"),
        PlaceKind::Control(ControlSub::WaitPoint) => ("diamond", "#ffe0b2"),
        _ => ("circle", "#e3f2fd"),
    }
}

/// The tag of the label of a transition of kind `kind` and its fill
/// colour.
fn transition_style(kind: &TransitionKind) -> (r: (String, &'static str))
    ensures
        r.0@ == transition_tag(*kind),
        r.1@ == transition_fill(*kind),
{
    let fill: &'static str = match kind {
        TransitionKind::Lock | TransitionKind::ReadLock | TransitionKind::Acquire => "#ffcdd2",
        TransitionKind::Unlock | TransitionKind::ReadUnlock | TransitionKind::Release => "#c8e6c9",
        TransitionKind::Spawn => "#fff9c4",
        TransitionKind::Join => "#b3e5fc",
        TransitionKind::Send | TransitionKind::Recv => "#d1c4e9",
        TransitionKind::CondvarWaitEnter | TransitionKind::CondvarNotify | TransitionKind::CondvarNotifyAll => "#ffe0b2",
        TransitionKind::Return | TransitionKind::FunctionExit => "#e0e0e0",
        TransitionKind::BranchTrue | TransitionKind::BranchFalse => "#f0f0f0",
        _ => "#ffe0b2",
    };
    let label: String = match kind {
        TransitionKind::Lock | TransitionKind::ReadLock | TransitionKind::Acquire => "lock".to_owned(),
        TransitionKind::Unlock | TransitionKind::ReadUnlock | TransitionKind::Release => "unlock".to_owned(),
        TransitionKind::Spawn => "spawn".to_owned(),
        TransitionKind::Join => "join".to_owned(),
        TransitionKind::Send => "send".to_owned(),
        TransitionKind::Recv => "recv".to_owned(),
        TransitionKind::CondvarWaitEnter => "cv_wait".to_owned(),
        TransitionKind::CondvarNotify | TransitionKind::CondvarNotifyAll => "cv_notify".to_owned(),
        TransitionKind::Return | TransitionKind::FunctionExit => "return".to_owned(),
        TransitionKind::BranchTrue | TransitionKind::BranchFalse => "branch".to_owned(),
        TransitionKind::Switch { label } => label.clone(),
        _ => String::new(),
    };
    (label, fill)
}

/// The tag of the label of a place of kind `kind`.
fn kind_tag(kind: &PlaceKind) -> (r: &'static str)
    ensures
        r@ == kind_tag_spec(*kind),
{
    match kind {
        PlaceKind::Resource(ResourceType::Mutex) => "mutex",
        PlaceKind::Resource(ResourceType::RwLock { .. }) => "rwlock",
        PlaceKind::Resource(ResourceType::Semaphore { .. }) => "sem",
        PlaceKind::Resource(ResourceType::Channel) => "ch",
        PlaceKind::Resource(ResourceType::Condvar) => "cv",
        PlaceKind::Control(ControlSub::FunctionEnd) => "end",
        PlaceKind::Control(ControlSub::WaitPoint) => "wait",
        _ => {
            proof {
                reveal_strlit("");
            }
            ""
        },
    }
}

/// The DOT line of place `i`, named `name`, of kind `kind`.
fn place_text(i: usize, name: &String, kind: &PlaceKind) -> (r: String)
    ensures
        r@ == place_line(i as nat, name@, *kind),
{
    let (shape, fill) = place_style(kind);
    let mut out = String::new();
    push_str(&mut out, "    p");
    push_decimal(&mut out, i as u64);
    push_str(&mut out, " [label=\"");
    let escaped_name = escape_dot(name.as_str());
    push_str(&mut out, escaped_name.as_str());
    push_str(&mut out, "\\n");
    push_str(&mut out, kind_tag(kind));
    push_str(&mut out, "\", shape=");
    push_str(&mut out, shape);
    push_str(&mut out, ", style=filled, fillcolor=\"");
    push_str(&mut out, fill);
    push_str(&mut out, "\"];\n");
    out
}

/// The DOT line of transition `i`, named `name`, of kind `kind`.
fn transition_text(i: usize, name: &String, kind: &TransitionKind) -> (r: String)
    ensures
        r@ == transition_line(i as nat, name@, *kind),
{
    let (label, fill) = transition_style(kind);
    let mut out = String::new();
    push_str(&mut out, "    t");
    push_decimal(&mut out, i as u64);
    push_str(&mut out, " [label=\"");
    let escaped_name = escape_dot(name.as_str());
    push_str(&mut out, escaped_name.as_str());
    push_str(&mut out, "\\n");
    let tag = escape_dot(label.as_str());
    push_str(&mut out, tag.as_str());
    push_str(&mut out, "\", shape=box, style=filled, fillcolor=\"");
    push_str(&mut out, fill);
    push_str(&mut out, "\"];\n");
    out
}

/// Appends the label of an arc of weight `w` to `out`.
fn push_weight_label(out: &mut String, w: usize)
    ensures
        final(out)@ == old(out)@ + weight_label(w),
{
    if w != 1 {
        push_str(out, " [label=\"");
        push_decimal(out, w as u64);
        push_str(out, "\"]");
    }
}

/// The DOT text of `net`: a line per place with its name and kind tag,
/// shaped and coloured by its kind; a line per transition with its name
/// and what it does, coloured by its kind; then, transition by transition,
/// a line per input arc and per output arc, labelled with its weight when
/// that is not one.
pub fn to_dot(net: &CvnNet) -> (r: String)
    ensures
        r@ == net_dot(*net),
{
    let mut out = String::new();
    push_str(&mut out, "digraph PetriNet {\n");
    push_str(&mut out, "    rankdir=LR;\n");
    let ghost head = out@;
    let np = net.places.len();
    let mut i: usize = 0;
    while i < np
        invariant
            i <= np,
            np == net.places@.len(),
            out@ == head + place_lines(*net, i as nat),
        decreases np - i,
    {
        let line = place_text(i, &net.places[i].name, &net.places[i].kind);
        push_str(&mut out, line.as_str());
        i = i + 1;
    }
    let ghost mid = out@;
    let nt = net.transitions.len();
    let mut i: usize = 0;
    while i < nt
        invariant
            i <= nt,
            nt == net.transitions@.len(),
            out@ == mid + transition_lines(*net, i as nat),
        decreases nt - i,
    {
        let line = transition_text(i, &net.transitions[i].name, &net.transitions[i].kind.kind);
        push_str(&mut out, line.as_str());
        i = i + 1;
    }
    let ghost arcs_start = out@;
    let na = net.arcs.len();
    let mut t: usize = 0;
    while t < nt
        invariant
            t <= nt,
            nt == net.transitions@.len(),
            na == net.arcs@.len(),
            out@ == arcs_start + all_arc_lines(*net, t as nat),
        decreases nt - t,
    {
        let ghost before = out@;
        let mut k: usize = 0;
        while k < na
            invariant
                k <= na,
                na == net.arcs@.len(),
                out@ == before + arc_lines(net.arcs@, t as nat, ArcDir::Input, k as nat),
            decreases na - k,
        {
            let a = &net.arcs[k];
            if a.transition == TransitionId(t) && a.direction == ArcDir::Input {
                push_str(&mut out, "    p");
                push_decimal(&mut out, a.place.0 as u64);
                push_str(&mut out, " -> t");
                push_decimal(&mut out, t as u64);
                push_weight_label(&mut out, a.weight);
                push_str(&mut out, ";\n");
            }
            k = k + 1;
        }
        let ghost inputs = out@;
        let mut k: usize = 0;
        while k < na
            invariant
                k <= na,
                na == net.arcs@.len(),
                out@ == inputs + arc_lines(net.arcs@, t as nat, ArcDir::Output, k as nat),
            decreases na - k,
        {
            let a = &net.arcs[k];
            if a.transition == TransitionId(t) && a.direction == ArcDir::Output {
                push_str(&mut out, "    t");
                push_decimal(&mut out, t as u64);
                push_str(&mut out, " -> p");
                push_decimal(&mut out, a.place.0 as u64);
                push_weight_label(&mut out, a.weight);
                push_str(&mut out, ";\n");
            }
            k = k + 1;
        }
        t = t + 1;
    }
    push_str(&mut out, "}\n");
    out
}

} // verus!
