//! Groups of layers, and the flat list of records that stands for them: the end
//! of a group comes first, then what is in it, then its head.

use vstd::prelude::*;

use crate::helpers;
use crate::psd;
use crate::psd::{
    AdditionalInfoView, BlendMode, Layer, LayerAdditionalInfo, LayerView, SectionDivider,
    SectionDividerType, SectionDividerView,
};
use crate::text;

verus! {

/// The record at the end of a group.
pub open spec fn group_end() -> LayerView {
    LayerView {
        additional_info: AdditionalInfoView {
            name: Some("</Layer group>"@),
            section_divider: Some(
                SectionDividerView {
                    divider_type: SectionDividerType::BoundingSectionDivider,
                    key: None,
                    sub_type: None,
                },
            ),
            ..psd::empty_info()
        },
        ..psd::empty_layer()
    }
}

/// The record at the head of a group.
pub open spec fn group_head(l: LayerView) -> LayerView {
    LayerView {
        children: None,
        blend_mode: if l.blend_mode == Some(BlendMode::PassThrough) {
            Some(BlendMode::Normal)
        } else {
            l.blend_mode
        },
        additional_info: AdditionalInfoView {
            section_divider: Some(
                SectionDividerView {
                    divider_type: if l.opened == Some(false) {
                        SectionDividerType::ClosedFolder
                    } else {
                        SectionDividerType::OpenFolder
                    },
                    key: Some(
                        match l.blend_mode {
                            Some(mode) => helpers::blend_key(mode),
                            None => "pass"@,
                        },
                    ),
                    sub_type: Some(0),
                },
            ),
            ..l.additional_info
        },
        ..l
    }
}

/// The records of a list of layers and groups.
pub open spec fn flattened(children: Seq<LayerView>) -> Seq<LayerView>
    decreases children,
{
    if children.len() == 0 {
        Seq::empty()
    } else {
        flattened(children.drop_last()) + flattened_layer(children.last())
    }
}

/// The records of a layer or a group.
pub open spec fn flattened_layer(l: LayerView) -> Seq<LayerView>
    decreases l,
{
    match l.children {
        None => seq![l],
        Some(children) => seq![group_end()] + flattened(children) + seq![group_head(l)],
    }
}

/// No record has layers in it.
pub proof fn lemma_flat_records(children: Seq<LayerView>)
    ensures
        forall|i: int|
            0 <= i < flattened(children).len() ==> (#[trigger] flattened(
                children,
            )[i]).children is None,
    decreases children,
{
    if children.len() > 0 {
        let first = flattened(children.drop_last());
        let last = flattened_layer(children.last());
        lemma_flat_records(children.drop_last());
        lemma_flat_layer(children.last());
        assert forall|i: int| 0 <= i < flattened(children).len() implies (#[trigger] flattened(
            children,
        )[i]).children is None by {
            if i < first.len() {
                assert(flattened(children)[i] == first[i]);
            } else {
                assert(flattened(children)[i] == last[i - first.len()]);
            }
        }
    }
}

proof fn lemma_flat_layer(l: LayerView)
    ensures
        forall|i: int|
            0 <= i < flattened_layer(l).len() ==> (#[trigger] flattened_layer(
                l,
            )[i]).children is None,
    decreases l,
{
    match l.children {
        None => {},
        Some(children) => {
            lemma_flat_records(children);
            let inner = flattened(children);
            assert forall|i: int| 0 <= i < flattened_layer(l).len() implies (
            #[trigger] flattened_layer(l)[i]).children is None by {
                if 1 <= i < 1 + inner.len() {
                    assert(flattened_layer(l)[i] == inner[i - 1]);
                }
            }
        },
    }
}

/// No group has pixels of its own.
pub open spec fn groups_have_no_pixels(children: Seq<LayerView>) -> bool
    decreases children,
{
    children.len() == 0 || (groups_have_no_pixels(children.drop_last()) && group_has_no_pixels(
        children.last(),
    ))
}

/// A group, and the groups in it, have no pixels of their own.
pub open spec fn group_has_no_pixels(l: LayerView) -> bool
    decreases l,
{
    match l.children {
        None => true,
        Some(children) => l.canvas is None && l.image_data is None && groups_have_no_pixels(
            children,
        ),
    }
}

/// Layers and groups that are still to be flattened: those of a list from the next one
/// on, and the head of the group that they are in, where they are in one.
struct Pending<'a> {
    children: &'a Vec<Layer>,
    next: usize,
    head: Option<&'a Layer>,
}

/// The mathematical view of [`Pending`].
#[verifier::ext_equal]
struct PendingView {
    children: Seq<LayerView>,
    next: int,
    head: Option<LayerView>,
}

impl<'a> DeepView for Pending<'a> {
    type V = PendingView;

    closed spec fn deep_view(&self) -> PendingView {
        PendingView {
            children: self.children.deep_view(),
            next: self.next as int,
            head: self.head.deep_view(),
        }
    }
}

/// The records of what is still to be flattened in one list.
spec fn pending_records(p: PendingView) -> Seq<LayerView> {
    flattened(p.children.skip(p.next)) + (match p.head {
        Some(l) => seq![group_head(l)],
        None => Seq::empty(),
    })
}

/// The records of all that is still to be flattened: the last list comes first.
spec fn all_pending(stack: Seq<PendingView>) -> Seq<LayerView>
    decreases stack.len(),
{
    if stack.len() == 0 {
        Seq::empty()
    } else {
        pending_records(stack.last()) + all_pending(stack.drop_last())
    }
}

/// How many steps it takes to flatten the rest.
spec fn steps_left(stack: Seq<PendingView>) -> nat
    decreases stack.len(),
{
    if stack.len() == 0 {
        0
    } else {
        let top = stack.last();
        flattened(top.children.skip(top.next)).len() + 1 + steps_left(stack.drop_last())
    }
}

proof fn lemma_flattened_joined(a: Seq<LayerView>, b: Seq<LayerView>)
    ensures
        flattened(a + b) == flattened(a) + flattened(b),
    decreases b.len(),
{
    if b.len() == 0 {
        assert(a + b =~= a);
        assert(flattened(a) + flattened(b) =~= flattened(a));
    } else {
        lemma_flattened_joined(a, b.drop_last());
        assert((a + b).drop_last() =~= a + b.drop_last());
        assert((a + b).last() == b.last());
        assert(flattened(a) + flattened(b.drop_last()) + flattened_layer(b.last()) =~= flattened(a)
            + flattened(b));
    }
}

/// The records of a list are those of its first layer or group and those of the rest.
proof fn lemma_flattened_first(children: Seq<LayerView>, i: int)
    requires
        0 <= i < children.len(),
    ensures
        flattened(children.skip(i)) == flattened_layer(children[i]) + flattened(
            children.skip(i + 1),
        ),
{
    let one = seq![children[i]];
    lemma_flattened_joined(one, children.skip(i + 1));
    assert(children.skip(i) =~= one + children.skip(i + 1));
    assert(one.drop_last() =~= Seq::<LayerView>::empty());
    assert(flattened(one) =~= flattened_layer(children[i])) by {
        assert(flattened(Seq::empty()) =~= Seq::<LayerView>::empty());
        assert(one.last() == children[i]);
    }
}

/// One more layer or group is taken from the last list.
proof fn lemma_pending_step(stack: Seq<PendingView>)
    requires
        stack.len() > 0,
        0 <= stack.last().next < stack.last().children.len(),
    ensures
        ({
            let top = stack.last();
            let rest = stack.drop_last().push(PendingView { next: top.next + 1, ..top });
            let l = top.children[top.next];
            let inside = PendingView {
                children: l.children->Some_0,
                next: 0,
                head: Some(l),
            };
            &&& all_pending(stack) == flattened_layer(l) + all_pending(rest)
            &&& steps_left(stack) == flattened_layer(l).len() + steps_left(rest)
            &&& l.children is Some ==> all_pending(stack) == seq![group_end()] + all_pending(
                rest.push(inside),
            )
            &&& l.children is Some ==> steps_left(rest.push(inside)) < steps_left(stack)
        }),
{
    let top = stack.last();
    let next = PendingView { next: top.next + 1, ..top };
    let rest = stack.drop_last().push(next);
    let l = top.children[top.next];
    lemma_flattened_first(top.children, top.next);
    assert(rest.last() == next);
    assert(rest.drop_last() =~= stack.drop_last());
    assert(all_pending(stack) =~= flattened_layer(l) + all_pending(rest));
    if l.children is Some {
        let children = l.children->Some_0;
        let inside = PendingView { children, next: 0, head: Some(l) };
        let deeper = rest.push(inside);
        assert(deeper.last() == inside);
        assert(deeper.drop_last() =~= rest);
        assert(children.skip(0) =~= children);
        assert(all_pending(stack) =~= seq![group_end()] + all_pending(deeper));
    }
}

/// Appends the records of a list of layers and groups, however deep they are.
pub fn add_children(layers: &mut Vec<Layer>, children: &Vec<Layer>)
    requires
        groups_have_no_pixels(children.deep_view()),
    ensures
        final(layers).deep_view() == old(layers).deep_view() + flattened(children.deep_view()),
{
    let ghost goal = old(layers).deep_view() + flattened(children.deep_view());
    let mut stack: Vec<Pending> = Vec::new();
    let ghost none = stack.deep_view();
    let first: Pending = Pending { children, next: 0, head: None };
    let ghost first_view = first.deep_view();
    stack.push(first);
    proof {
        assert(stack.deep_view() =~= none.push(first_view));
        assert(stack.deep_view().drop_last() =~= none);
        assert(first_view.children.skip(0) =~= first_view.children);
        assert(all_pending(none) =~= Seq::<LayerView>::empty());
        assert(stack.deep_view().last() == first_view);
        assert(pending_records(first_view) =~= flattened(children.deep_view()));
        assert(all_pending(stack.deep_view()) =~= flattened(children.deep_view()));
        assert(layers.deep_view() + all_pending(stack.deep_view()) =~= goal);
    }
    while stack.len() > 0
        invariant
            layers.deep_view() + all_pending(stack.deep_view()) == goal,
            forall|i: int|
                0 <= i < stack@.len() ==> (#[trigger] stack@[i]).next <= stack@[i].children@.len(),
        decreases steps_left(stack.deep_view()),
    {
        let ghost before = stack.deep_view();
        let ghost done = layers.deep_view();
        let top: Pending = match stack.pop() {
            Some(top) => top,
            None => {
                return;
            },
        };
        let ghost rest = stack.deep_view();
        assert(rest =~= before.drop_last());
        assert(top.deep_view() == before.last());
        if top.next < top.children.len() {
            let child: &Layer = &top.children[top.next];
            let ghost l = child.deep_view();
            proof {
                psd::lemma_layer_children(*child);
                assert(before.last().children[before.last().next] == l);
                lemma_pending_step(before);
            }
            let more: Pending = Pending {
                children: top.children,
                next: top.next + 1,
                head: top.head,
            };
            let ghost more_view = more.deep_view();
            stack.push(more);
            assert(stack.deep_view() =~= rest.push(more_view));
            let ghost taken = stack.deep_view();
            match &child.children {
                None => {
                    let copy: Layer = child.duplicate_without_children();
                    assert(copy.deep_view() == l);
                    layers.push(copy);
                    assert(layers.deep_view() =~= done + flattened_layer(l));
                    assert(layers.deep_view() + all_pending(taken) =~= done + (flattened_layer(l)
                        + all_pending(taken)));
                },
                Some(inner) => {
                    let end: Layer = group_end_record();
                    let ghost end_view = end.deep_view();
                    layers.push(end);
                    assert(layers.deep_view() =~= done.push(end_view));
                    let inside: Pending = Pending { children: inner, next: 0, head: Some(child) };
                    let ghost inside_view = inside.deep_view();
                    stack.push(inside);
                    assert(stack.deep_view() =~= taken.push(inside_view));
                    assert(layers.deep_view() + all_pending(stack.deep_view()) =~= done + (
                    seq![group_end()] + all_pending(stack.deep_view())));
                },
            }
        } else {
            proof {
                let p = before.last();
                assert(p.children.skip(p.next) =~= Seq::<LayerView>::empty());
            }
            match top.head {
                Some(l) => {
                    let head: Layer = group_head_record(l);
                    let ghost head_view = head.deep_view();
                    layers.push(head);
                    assert(layers.deep_view() =~= done.push(head_view));
                    assert(layers.deep_view() + all_pending(rest) =~= done + all_pending(before));
                },
                None => {
                    assert(done + all_pending(rest) =~= done + all_pending(before));
                },
            }
        }
    }
    assert(layers.deep_view() + all_pending(stack.deep_view()) =~= layers.deep_view());
}

fn group_end_record() -> (record: Layer)
    ensures
        record.deep_view() == group_end(),
{
    let mut info: LayerAdditionalInfo = LayerAdditionalInfo::default();
    info.name = Some(text::owned_text("</Layer group>"));
    info.section_divider = Some(
        SectionDivider {
            divider_type: SectionDividerType::BoundingSectionDivider,
            key: None,
            sub_type: None,
        },
    );
    let mut record: Layer = Layer::default();
    record.additional_info = info;
    record
}

fn group_head_record(l: &Layer) -> (record: Layer)
    ensures
        record.deep_view() == group_head(l.deep_view()),
{
    let mut record: Layer = l.duplicate_without_children();
    let key: String = match l.blend_mode {
        Some(mode) => text::owned_text(helpers::from_blend_mode(mode)),
        None => text::owned_text("pass"),
    };
    match l.blend_mode {
        Some(BlendMode::PassThrough) => {
            record.blend_mode = Some(BlendMode::Normal);
        },
        _ => {},
    }
    let divider_type: SectionDividerType = match l.opened {
        Some(false) => SectionDividerType::ClosedFolder,
        _ => SectionDividerType::OpenFolder,
    };
    record.additional_info.section_divider = Some(
        SectionDivider { divider_type, key: Some(key), sub_type: Some(0) },
    );
    record
}

/// A group whose head has been met: its head, and the layers met in it so far.
/// The first frame has no head: it holds the layers outside of all groups.
pub struct Frame {
    pub children: Vec<Layer>,
    pub folder: Option<Layer>,
}

/// The mathematical view of [`Frame`].
#[verifier::ext_equal]
pub struct FrameView {
    pub children: Seq<LayerView>,
    pub folder: Option<LayerView>,
}

impl DeepView for Frame {
    type V = FrameView;

    open spec fn deep_view(&self) -> FrameView {
        FrameView { children: self.children.deep_view(), folder: self.folder.deep_view() }
    }
}

/// What part a record plays in a group.
pub open spec fn record_type(l: LayerView) -> SectionDividerType {
    match l.additional_info.section_divider {
        Some(divider) => divider.divider_type,
        None => SectionDividerType::Other,
    }
}

/// A group, still without its layers, from the record at its head.
pub open spec fn opened_group(l: LayerView) -> LayerView {
    LayerView {
        opened: Some(record_type(l) == SectionDividerType::OpenFolder),
        children: Some(Seq::empty()),
        blend_mode: match l.additional_info.section_divider {
            Some(divider) => match divider.key {
                Some(key) => match helpers::blend_mode_of(key) {
                    Some(mode) => Some(mode),
                    None => l.blend_mode,
                },
                None => l.blend_mode,
            },
            None => l.blend_mode,
        },
        ..l
    }
}

/// The frames with one more layer before the others in the last one.
pub open spec fn with_layer(stack: Seq<FrameView>, l: LayerView) -> Seq<FrameView> {
    let top = stack.last();
    stack.drop_last().push(FrameView { children: seq![l] + top.children, ..top })
}

/// The frames with the last group ended and put among the layers around it.
pub open spec fn with_group_closed(stack: Seq<FrameView>) -> Seq<FrameView> {
    let top = stack.last();
    with_layer(
        stack.drop_last(),
        LayerView { children: Some(top.children), ..top.folder->Some_0 },
    )
}

/// The frames after one record, where the records are met from the last to the
/// first: a head starts a group, an end closes the last group, if there is one.
pub open spec fn stack_step(stack: Seq<FrameView>, l: LayerView) -> Seq<FrameView> {
    match record_type(l) {
        SectionDividerType::OpenFolder | SectionDividerType::ClosedFolder => stack.push(
            FrameView { children: Seq::empty(), folder: Some(opened_group(l)) },
        ),
        SectionDividerType::BoundingSectionDivider => if stack.len() > 1 {
            with_group_closed(stack)
        } else {
            stack
        },
        SectionDividerType::Other => with_layer(stack, l),
    }
}

/// The frames after all records, met from the last to the first.
pub open spec fn stack_after(stack: Seq<FrameView>, records: Seq<LayerView>) -> Seq<FrameView>
    decreases records.len(),
{
    if records.len() == 0 {
        stack
    } else {
        stack_after(stack_step(stack, records.last()), records.drop_last())
    }
}

/// The layers outside of all groups once the groups without an end are closed.
pub open spec fn closed_stack(stack: Seq<FrameView>) -> Seq<LayerView>
    decreases stack.len(),
{
    if stack.len() <= 1 {
        stack[0].children
    } else {
        closed_stack(with_group_closed(stack))
    }
}

/// The frames before any record.
pub open spec fn first_stack() -> Seq<FrameView> {
    seq![FrameView { children: Seq::empty(), folder: None }]
}

/// The layers and groups that a flat list of records stands for.
pub open spec fn layer_tree(records: Seq<LayerView>) -> Seq<LayerView> {
    closed_stack(stack_after(first_stack(), records))
}

/// There is a frame for the layers outside of all groups, and every other frame
/// has a head.
pub open spec fn stack_wf(stack: Seq<FrameView>) -> bool {
    &&& stack.len() >= 1
    &&& forall|i: int| 1 <= i < stack.len() ==> (#[trigger] stack[i]).folder is Some
}

fn push_layer(stack: &mut Vec<Frame>, l: Layer)
    requires
        old(stack)@.len() >= 1,
    ensures
        final(stack).deep_view() == with_layer(old(stack).deep_view(), l.deep_view()),
{
    let mut top: Frame = match stack.pop() {
        Some(top) => top,
        None => {
            return;
        },
    };
    let ghost frames = stack.deep_view();
    let ghost before = top.children.deep_view();
    proof {
        assert(frames =~= old(stack).deep_view().drop_last());
        assert(top.deep_view() == old(stack).deep_view().last());
    }
    let ghost added = l.deep_view();
    top.children.insert(0, l);
    assert(top.children.deep_view() =~= seq![added] + before);
    let ghost top_view = top.deep_view();
    stack.push(top);
    assert(stack.deep_view() =~= frames.push(top_view));
}

fn close_group(stack: &mut Vec<Frame>)
    requires
        old(stack)@.len() >= 2,
        stack_wf(old(stack).deep_view()),
    ensures
        final(stack).deep_view() == with_group_closed(old(stack).deep_view()),
        stack_wf(final(stack).deep_view()),
        final(stack)@.len() == old(stack)@.len() - 1,
{
    let top: Frame = match stack.pop() {
        Some(top) => top,
        None => {
            return;
        },
    };
    proof {
        assert(stack.deep_view() =~= old(stack).deep_view().drop_last());
        assert(top.deep_view() == old(stack).deep_view().last());
    }
    let ghost inner = top.children.deep_view();
    match top.folder {
        Some(folder) => {
            let mut group: Layer = folder;
            let ghost head = group.deep_view();
            group.children = Some(top.children);
            proof {
                psd::lemma_layer_children(group);
                assert(group.deep_view() == (LayerView { children: Some(inner), ..head }));
            }
            push_layer(stack, group);
        },
        None => {},
    }
}

fn open_group(l: Layer) -> (group: Layer)
    ensures
        group.deep_view() == opened_group(l.deep_view()),
{
    let mut group: Layer = l;
    let ghost record = group.deep_view();
    let opened: bool = match &group.additional_info.section_divider {
        Some(divider) => match divider.divider_type {
            SectionDividerType::OpenFolder => true,
            _ => false,
        },
        None => false,
    };
    let mode: Option<BlendMode> = match &group.additional_info.section_divider {
        Some(divider) => match &divider.key {
            Some(key) => helpers::to_blend_mode(key.as_str()),
            None => None,
        },
        None => None,
    };
    group.opened = Some(opened);
    let none: Vec<Layer> = Vec::new();
    assert(none.deep_view() =~= Seq::<LayerView>::empty());
    group.children = Some(none);
    if mode.is_some() {
        group.blend_mode = mode;
    }
    proof {
        psd::lemma_layer_children(group);
    }
    group
}

/// The layers and groups that a flat list of records stands for.
pub fn build_layer_tree(records: Vec<Layer>) -> (children: Vec<Layer>)
    ensures
        children.deep_view() == layer_tree(records.deep_view()),
{
    let ghost all = records.deep_view();
    let mut records: Vec<Layer> = records;
    let mut stack: Vec<Frame> = Vec::new();
    let root: Frame = Frame { children: Vec::new(), folder: None };
    assert(root.children.deep_view() =~= Seq::<LayerView>::empty());
    stack.push(root);
    assert(stack.deep_view() =~= first_stack());
    while records.len() > 0
        invariant
            stack_wf(stack.deep_view()),
            stack_after(stack.deep_view(), records.deep_view()) == stack_after(first_stack(), all),
        decreases records@.len(),
    {
        let ghost before = records.deep_view();
        let ghost frames = stack.deep_view();
        let l: Layer = match records.pop() {
            Some(l) => l,
            None => {
                return Vec::new();
            },
        };
        proof {
            assert(records.deep_view() =~= before.drop_last());
            assert(l.deep_view() == before.last());
        }
        let ghost record = l.deep_view();
        let kind: SectionDividerType = match &l.additional_info.section_divider {
            Some(divider) => divider.divider_type,
            None => SectionDividerType::Other,
        };
        match kind {
            SectionDividerType::OpenFolder | SectionDividerType::ClosedFolder => {
                let folder: Layer = open_group(l);
                let frame: Frame = Frame { children: Vec::new(), folder: Some(folder) };
                assert(frame.children.deep_view() =~= Seq::<LayerView>::empty());
                let ghost added = frame.deep_view();
                stack.push(frame);
                assert(stack.deep_view() =~= frames.push(added));
            },
            SectionDividerType::BoundingSectionDivider => {
                if stack.len() > 1 {
                    close_group(&mut stack);
                }
            },
            SectionDividerType::Other => {
                push_layer(&mut stack, l);
            },
        }
        assert(stack.deep_view() == stack_step(frames, record));
    }
    assert(records.deep_view() =~= Seq::<LayerView>::empty());
    while stack.len() > 1
        invariant
            stack_wf(stack.deep_view()),
            closed_stack(stack.deep_view()) == layer_tree(all),
        decreases stack@.len(),
    {
        close_group(&mut stack);
    }
    let ghost last = stack.deep_view();
    match stack.pop() {
        Some(root) => {
            assert(root.deep_view() == last[0]);
            root.children
        },
        None => Vec::new(),
    }
}

/// Records one after the other are met one after the other, the last first.
pub proof fn lemma_stack_append(stack: Seq<FrameView>, a: Seq<LayerView>, b: Seq<LayerView>)
    ensures
        stack_after(stack, a + b) == stack_after(stack_after(stack, b), a),
    decreases b.len(),
{
    if b.len() == 0 {
        assert(a + b =~= a);
    } else {
        assert((a + b).drop_last() =~= a + b.drop_last());
        lemma_stack_append(stack_step(stack, b.last()), a, b.drop_last());
    }
}

/// A single record.
pub proof fn lemma_stack_one(stack: Seq<FrameView>, l: LayerView)
    ensures
        stack_after(stack, seq![l]) == stack_step(stack, l),
{
    let one = seq![l];
    assert(one.last() == l);
    assert(one.drop_last() =~= Seq::<LayerView>::empty());
    assert(stack_after(stack_step(stack, l), one.drop_last()) == stack_step(stack, l));
}

/// Both records play the same part in a group, whatever the record is.
pub open spec fn keeps_part(change: spec_fn(LayerView) -> LayerView) -> bool {
    forall|l: LayerView| record_type(#[trigger] change(l)) == record_type(l)
}

/// A layer or a group as it comes back from its records, each of which has been
/// changed on the way.
pub open spec fn regrouped(l: LayerView, change: spec_fn(LayerView) -> LayerView) -> LayerView
    decreases l,
{
    match l.children {
        None => change(l),
        Some(children) => LayerView {
            children: Some(regrouped_all(children, change)),
            ..opened_group(change(group_head(l)))
        },
    }
}

/// A list of layers and groups as it comes back from its records.
pub open spec fn regrouped_all(
    children: Seq<LayerView>,
    change: spec_fn(LayerView) -> LayerView,
) -> Seq<LayerView>
    decreases children,
{
    if children.len() == 0 {
        Seq::empty()
    } else {
        regrouped_all(children.drop_last(), change).push(regrouped(children.last(), change))
    }
}

/// No layer outside of a group plays the part of the head or the end of one.
pub open spec fn no_stray_dividers(children: Seq<LayerView>) -> bool
    decreases children,
{
    children.len() == 0 || (no_stray_dividers(children.drop_last()) && no_stray_divider(
        children.last(),
    ))
}

/// A layer does not play the part of the head or the end of a group.
pub open spec fn no_stray_divider(l: LayerView) -> bool
    decreases l,
{
    match l.children {
        None => record_type(l) == SectionDividerType::Other,
        Some(children) => no_stray_dividers(children),
    }
}

proof fn lemma_map_append(
    a: Seq<LayerView>,
    b: Seq<LayerView>,
    change: spec_fn(LayerView) -> LayerView,
)
    ensures
        (a + b).map_values(change) == a.map_values(change) + b.map_values(change),
{
    assert((a + b).map_values(change) =~= a.map_values(change) + b.map_values(change));
}

proof fn lemma_tree_layer(
    stack: Seq<FrameView>,
    l: LayerView,
    change: spec_fn(LayerView) -> LayerView,
)
    requires
        stack.len() >= 1,
        no_stray_divider(l),
        keeps_part(change),
    ensures
        stack_after(stack, flattened_layer(l).map_values(change)) == with_layer(
            stack,
            regrouped(l, change),
        ),
    decreases l,
{
    match l.children {
        None => {
            assert(flattened_layer(l).map_values(change) =~= seq![change(l)]);
            lemma_stack_one(stack, change(l));
        },
        Some(children) => {
            let head = change(group_head(l));
            let end = change(group_end());
            let frame = FrameView { children: Seq::empty(), folder: Some(opened_group(head)) };
            let opened = stack.push(frame);
            let inner = flattened(children).map_values(change);
            assert(flattened_layer(l).map_values(change) =~= seq![end] + inner + seq![head]);
            lemma_stack_append(stack, seq![end] + inner, seq![head]);
            lemma_stack_one(stack, head);
            lemma_stack_append(opened, seq![end], inner);
            lemma_tree(opened, children, change);
            let filled = with_layers(opened, regrouped_all(children, change));
            lemma_stack_one(filled, end);
            assert(filled.drop_last() =~= stack);
            assert(filled.last().children =~= regrouped_all(children, change));
        },
    }
}

/// The frames with several layers before the others in the last one.
pub open spec fn with_layers(stack: Seq<FrameView>, layers: Seq<LayerView>) -> Seq<FrameView> {
    let top = stack.last();
    stack.drop_last().push(FrameView { children: layers + top.children, ..top })
}

proof fn lemma_tree(
    stack: Seq<FrameView>,
    children: Seq<LayerView>,
    change: spec_fn(LayerView) -> LayerView,
)
    requires
        stack.len() >= 1,
        no_stray_dividers(children),
        keeps_part(change),
    ensures
        stack_after(stack, flattened(children).map_values(change)) == with_layers(
            stack,
            regrouped_all(children, change),
        ),
    decreases children,
{
    if children.len() == 0 {
        assert(flattened(children).map_values(change) =~= Seq::<LayerView>::empty());
        assert(Seq::<LayerView>::empty() + stack.last().children =~= stack.last().children);
        assert(with_layers(stack, regrouped_all(children, change)) =~= stack);
    } else {
        let l = children.last();
        let first = flattened(children.drop_last());
        lemma_map_append(first, flattened_layer(l), change);
        lemma_stack_append(
            stack,
            first.map_values(change),
            flattened_layer(l).map_values(change),
        );
        lemma_tree_layer(stack, l, change);
        let next = with_layer(stack, regrouped(l, change));
        lemma_tree(next, children.drop_last(), change);
        let rest = regrouped_all(children.drop_last(), change);
        assert(next.drop_last() =~= stack.drop_last());
        assert(rest + (seq![regrouped(l, change)] + stack.last().children) =~= rest.push(
            regrouped(l, change),
        ) + stack.last().children);
        assert(with_layers(next, rest) =~= with_layers(stack, rest.push(regrouped(l, change))));
    }
}

/// Flattening layers and groups to records and building the tree again gives
/// every group its layers back, also where the records have been changed on the
/// way but not in the part that they play.
pub proof fn law_layer_tree_round_trip(
    children: Seq<LayerView>,
    change: spec_fn(LayerView) -> LayerView,
)
    requires
        no_stray_dividers(children),
        keeps_part(change),
    ensures
        layer_tree(flattened(children).map_values(change)) == regrouped_all(children, change),
{
    lemma_tree(first_stack(), children, change);
    assert(regrouped_all(children, change) + Seq::<LayerView>::empty() =~= regrouped_all(
        children,
        change,
    ));
}

/// How a group is blended: by its blend mode, or with what is below it as if it
/// were no group.
pub open spec fn group_mode(l: LayerView) -> BlendMode {
    match l.blend_mode {
        Some(mode) => mode,
        None => BlendMode::PassThrough,
    }
}

/// A list of layers and groups as it comes back from its records where none of them
/// has been changed.
pub open spec fn kept_all(found: Seq<LayerView>, children: Seq<LayerView>) -> bool
    decreases children,
{
    &&& found.len() == children.len()
    &&& children.len() == 0 || (kept_all(found.drop_last(), children.drop_last()) && kept(
        found.last(),
        children.last(),
    ))
}

/// A layer as it comes back is the layer. A group as it comes back says whether it is
/// open and how it is blended, and is a head of a group; all else is as it was.
pub open spec fn kept(found: LayerView, l: LayerView) -> bool
    decreases l,
{
    match l.children {
        None => found == l,
        Some(children) => {
            &&& found.children is Some
            &&& kept_all(found.children->Some_0, children)
            &&& found.opened == Some(l.opened != Some(false))
            &&& found.blend_mode == Some(group_mode(l))
            &&& record_type(found) == (if l.opened == Some(false) {
                SectionDividerType::ClosedFolder
            } else {
                SectionDividerType::OpenFolder
            })
            &&& found == (LayerView {
                children: found.children,
                opened: found.opened,
                blend_mode: found.blend_mode,
                additional_info: AdditionalInfoView {
                    section_divider: found.additional_info.section_divider,
                    ..l.additional_info
                },
                ..l
            })
        },
    }
}

proof fn lemma_group_kept(l: LayerView)
    ensures
        opened_group(group_head(l)).blend_mode == Some(group_mode(l)),
{
    helpers::law_blend_mode_round_trip(group_mode(l));
    assert(helpers::blend_key(BlendMode::PassThrough) == "pass"@);
}

proof fn lemma_kept(l: LayerView, change: spec_fn(LayerView) -> LayerView)
    requires
        no_stray_divider(l),
        forall|x: LayerView| #[trigger] change(x) == x,
    ensures
        kept(regrouped(l, change), l),
        no_stray_divider(regrouped(l, change)),
    decreases l,
{
    match l.children {
        None => {},
        Some(children) => {
            lemma_group_kept(l);
            lemma_all_kept(children, change);
            assert(change(group_head(l)) == group_head(l));
        },
    }
}

proof fn lemma_all_kept(children: Seq<LayerView>, change: spec_fn(LayerView) -> LayerView)
    requires
        no_stray_dividers(children),
        forall|x: LayerView| #[trigger] change(x) == x,
    ensures
        kept_all(regrouped_all(children, change), children),
        no_stray_dividers(regrouped_all(children, change)),
    decreases children,
{
    if children.len() > 0 {
        let found = regrouped_all(children, change);
        lemma_all_kept(children.drop_last(), change);
        lemma_kept(children.last(), change);
        assert(found.drop_last() =~= regrouped_all(children.drop_last(), change));
        assert(found.last() == regrouped(children.last(), change));
    }
}

/// The records of layers and groups stand for the same layers and groups in the same
/// order: every layer as it was, every group with its name, open or closed, blended as
/// it was, with all that was in it. No end of a group is left among them.
pub proof fn law_layer_tree_kept(children: Seq<LayerView>)
    requires
        no_stray_dividers(children),
    ensures
        kept_all(layer_tree(flattened(children)), children),
        no_stray_dividers(layer_tree(flattened(children))),
{
    let change = |l: LayerView| l;
    law_layer_tree_round_trip(children, change);
    assert(flattened(children).map_values(change) =~= flattened(children));
    lemma_all_kept(children, change);
}

/// All layers and groups of a list, and those in them, are as `p` says.
pub open spec fn everywhere(children: Seq<LayerView>, p: spec_fn(LayerView) -> bool) -> bool
    decreases children,
{
    children.len() == 0 || (everywhere(children.drop_last(), p) && throughout(children.last(), p))
}

/// A layer or a group, and all in it, are as `p` says.
pub open spec fn throughout(l: LayerView, p: spec_fn(LayerView) -> bool) -> bool
    decreases l,
{
    &&& p(l)
    &&& match l.children {
        None => true,
        Some(children) => everywhere(children, p),
    }
}

/// `p` does not look at what is in a group, whether it is open and how it is blended.
pub open spec fn of_records(p: spec_fn(LayerView) -> bool) -> bool {
    forall|a: LayerView, b: LayerView|
        #![trigger p(a), p(b)]
        p(a) && b == (LayerView {
            children: b.children,
            opened: b.opened,
            blend_mode: b.blend_mode,
            ..a
        }) ==> p(b)
}

/// All that the frames hold is as `p` says.
spec fn stack_everywhere(stack: Seq<FrameView>, p: spec_fn(LayerView) -> bool) -> bool {
    &&& stack_wf(stack)
    &&& forall|i: int|
        0 <= i < stack.len() ==> everywhere((#[trigger] stack[i]).children, p) && (
        stack[i].folder is Some ==> p(stack[i].folder->Some_0))
}

/// What holds everywhere in two lists holds everywhere in one behind the other.
pub proof fn lemma_everywhere_joined(
    a: Seq<LayerView>,
    b: Seq<LayerView>,
    p: spec_fn(LayerView) -> bool,
)
    requires
        everywhere(a, p),
        everywhere(b, p),
    ensures
        everywhere(a + b, p),
    decreases b.len(),
{
    if b.len() == 0 {
        assert(a + b =~= a);
    } else {
        lemma_everywhere_joined(a, b.drop_last(), p);
        assert((a + b).drop_last() =~= a + b.drop_last());
        assert((a + b).last() == b.last());
    }
}

proof fn lemma_layer_pushed(stack: Seq<FrameView>, l: LayerView, p: spec_fn(LayerView) -> bool)
    requires
        stack_everywhere(stack, p),
        throughout(l, p),
    ensures
        stack_everywhere(with_layer(stack, l), p),
{
    let one = seq![l];
    let top = stack.last();
    let after = with_layer(stack, l);
    assert(one.drop_last() =~= Seq::<LayerView>::empty());
    assert(one.last() == l);
    assert(everywhere(one, p)) by {
        assert(everywhere(Seq::empty(), p));
    }
    assert(stack[stack.len() - 1] == top);
    lemma_everywhere_joined(one, top.children, p);
    assert forall|i: int| 0 <= i < after.len() implies everywhere(
        (#[trigger] after[i]).children,
        p,
    ) && (after[i].folder is Some ==> p(after[i].folder->Some_0)) by {
        if i < stack.len() - 1 {
            assert(after[i] == stack[i]);
        }
    }
    assert forall|i: int| 1 <= i < after.len() implies (#[trigger] after[i]).folder is Some by {
        if i < stack.len() - 1 {
            assert(after[i] == stack[i]);
        }
    }
}

proof fn lemma_group_closed(stack: Seq<FrameView>, p: spec_fn(LayerView) -> bool)
    requires
        stack_everywhere(stack, p),
        stack.len() > 1,
        of_records(p),
    ensures
        stack_everywhere(with_group_closed(stack), p),
{
    let top = stack.last();
    assert(stack[stack.len() - 1] == top);
    let rest = stack.drop_last();
    assert forall|i: int| 0 <= i < rest.len() implies #[trigger] rest[i] == stack[i] by {}
    let head = top.folder->Some_0;
    let group = LayerView { children: Some(top.children), ..head };
    assert(p(head));
    assert(p(group));
    assert(throughout(group, p));
    lemma_layer_pushed(rest, group, p);
}

proof fn lemma_stack_everywhere(
    stack: Seq<FrameView>,
    records: Seq<LayerView>,
    p: spec_fn(LayerView) -> bool,
)
    requires
        stack_everywhere(stack, p),
        of_records(p),
        forall|i: int| 0 <= i < records.len() ==> throughout(#[trigger] records[i], p),
    ensures
        stack_everywhere(stack_after(stack, records), p),
    decreases records.len(),
{
    if records.len() > 0 {
        let l = records.last();
        assert(records[records.len() - 1] == l);
        let next = stack_step(stack, l);
        match record_type(l) {
            SectionDividerType::OpenFolder | SectionDividerType::ClosedFolder => {
                assert forall|i: int| 0 <= i < stack.len() implies #[trigger] next[i]
                    == stack[i] by {}
                assert(everywhere(Seq::empty(), p));
                assert(p(l));
                assert(p(opened_group(l)));
            },
            SectionDividerType::BoundingSectionDivider => {
                if stack.len() > 1 {
                    lemma_group_closed(stack, p);
                }
            },
            SectionDividerType::Other => {
                lemma_layer_pushed(stack, l, p);
            },
        }
        assert(stack_everywhere(next, p));
        let rest = records.drop_last();
        assert forall|i: int| 0 <= i < rest.len() implies throughout(#[trigger] rest[i], p) by {
            assert(rest[i] == records[i]);
        }
        lemma_stack_everywhere(next, rest, p);
    }
}

proof fn lemma_closed_everywhere(stack: Seq<FrameView>, p: spec_fn(LayerView) -> bool)
    requires
        stack_everywhere(stack, p),
        of_records(p),
    ensures
        everywhere(closed_stack(stack), p),
    decreases stack.len(),
{
    if stack.len() > 1 {
        lemma_group_closed(stack, p);
        lemma_closed_everywhere(with_group_closed(stack), p);
    }
}

/// What holds of every record holds of every layer and group that the records stand
/// for.
pub proof fn lemma_tree_everywhere(records: Seq<LayerView>, p: spec_fn(LayerView) -> bool)
    requires
        of_records(p),
        forall|i: int| 0 <= i < records.len() ==> throughout(#[trigger] records[i], p),
    ensures
        everywhere(layer_tree(records), p),
{
    assert(everywhere(Seq::empty(), p));
    assert(stack_everywhere(first_stack(), p));
    lemma_stack_everywhere(first_stack(), records, p);
    lemma_closed_everywhere(stack_after(first_stack(), records), p);
}

} // verus!
