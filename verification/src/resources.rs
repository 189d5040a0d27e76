//! Image resources: numbered blocks about the document as a whole.

use vstd::prelude::*;

use crate::bytes;
use crate::error::{ErrorView, ReadResult};
use crate::info;
use crate::psd::{ResourceBlock, ResourceBlockView};
use crate::reader;
use crate::reader::{Parsed, PsdReader, ReaderState, Section};
use crate::roundtrip;
use crate::writer;
use crate::writer::PsdWriter;

verus! {

broadcast use crate::bytes::group_bytes;

/// The number of the thumbnail.
pub const THUMBNAIL: u16 = 1036;

/// The resource is passed over.
pub open spec fn left_out(id: u16, skip_thumbnail: Option<bool>) -> bool {
    id == THUMBNAIL && skip_thumbnail == Some(true)
}

/// The resource at the cursor.
pub open spec fn get_resource(r: ReaderState) -> Parsed<ResourceBlockView> {
    match info::get_block_signature(r, true) {
        Err(e) => Err(e),
        Ok((_, r1)) => match reader::get_u16(r1) {
            Err(e) => Err(e),
            Ok((id, r2)) => match reader::get_pascal_string(r2, 2) {
                Err(e) => Err(e),
                Ok((_, r3)) => match info::get_payload(r3, false) {
                    Err(e) => Err(e),
                    Ok((data, r4)) => Ok((ResourceBlockView { id, data }, r4)),
                },
            },
        },
    }
}

/// A resource takes at least two bytes.
pub proof fn lemma_resource_progress(r: ReaderState)
    requires
        r.buffer.len() <= usize::MAX,
    ensures
        get_resource(r) matches Ok((_, after)) ==> r.offset + 2 <= after.offset && after == r.at(
            after.offset,
        ),
{
    info::lemma_signature_progress(r, true, 0, Seq::empty());
}

/// The resources up to `end`, behind those that came before.
pub open spec fn get_resource_list(
    r: ReaderState,
    end: int,
    list: Seq<ResourceBlockView>,
) -> Parsed<Seq<ResourceBlockView>>
    decreases
            (if end < r.offset {
                0
            } else {
                end - r.offset
            }),
    when r.buffer.len() <= usize::MAX
    via get_resource_list_decreases
{
    if end <= r.offset {
        Ok((list, r))
    } else {
        match get_resource(r) {
            Err(e) => Err(e),
            Ok((resource, r1)) => get_resource_list(
                r1,
                end,
                if left_out(resource.id, r.options.skip_thumbnail) {
                    list
                } else {
                    list.push(resource)
                },
            ),
        }
    }
}

#[via_fn]
proof fn get_resource_list_decreases(r: ReaderState, end: int, list: Seq<ResourceBlockView>) {
    lemma_resource_progress(r);
}

/// The image resources of a document.
pub open spec fn get_resources(r: ReaderState) -> Parsed<Seq<ResourceBlockView>> {
    match reader::open_section(r, true, false) {
        Err(e) => Err(e),
        Ok((None, r1)) => Ok((Seq::empty(), r1)),
        Ok((Some(section), r1)) => match get_resource_list(r1, section.end as int, Seq::empty()) {
            Err(e) => Err(e),
            Ok((list, r2)) => match reader::close_section(r2, section, 1) {
                Err(e) => Err(e),
                Ok((_, r3)) => Ok((list, r3)),
            },
        },
    }
}

fn read_resource(reader: &mut PsdReader) -> (result: ReadResult<ResourceBlock>)
    ensures
        reader::reads(result, old(reader)@, final(reader)@, get_resource(old(reader)@)),
{
    info::realign_with_signature(reader, true)?;
    let id: u16 = reader::read_uint16(reader)?;
    reader::read_pascal_string(reader, 2)?;
    let data: Vec<u8> = info::read_payload(reader, false)?;
    Ok(ResourceBlock { id, data })
}

fn read_resource_list(reader: &mut PsdReader, section: Section) -> (result: ReadResult<
    Vec<ResourceBlock>,
>)
    ensures
        reader::reads(
            result,
            old(reader)@,
            final(reader)@,
            get_resource_list(old(reader)@, section.end as int, Seq::empty()),
        ),
{
    let size: usize = reader.buffer.len();
    let mut list: Vec<ResourceBlock> = Vec::new();
    assert(list.deep_view() =~= Seq::<ResourceBlockView>::empty());
    while section.left(reader) > 0
        invariant
            reader@.buffer.len() <= usize::MAX,
            reader@.same_source(old(reader)@),
            get_resource_list(reader@, section.end as int, list.deep_view()) == get_resource_list(
                old(reader)@,
                section.end as int,
                Seq::empty(),
            ),
        decreases section.rest(reader@),
    {
        proof {
            lemma_resource_progress(reader@);
        }
        let ghost before = list.deep_view();
        let resource: ResourceBlock = read_resource(reader)?;
        if !(resource.id == THUMBNAIL && matches!(reader.options.skip_thumbnail, Some(true))) {
            let ghost added = resource.deep_view();
            list.push(resource);
            assert(list.deep_view() =~= before.push(added));
        }
    }
    Ok(list)
}

/// Reads the image resources of a document.
pub fn read_resources(reader: &mut PsdReader) -> (result: ReadResult<Vec<ResourceBlock>>)
    ensures
        reader::reads(result, old(reader)@, final(reader)@, get_resources(old(reader)@)),
{
    match reader::begin_section(reader, true, false)? {
        None => {
            let list: Vec<ResourceBlock> = Vec::new();
            assert(list.deep_view() =~= Seq::<ResourceBlockView>::empty());
            Ok(list)
        },
        Some(section) => {
            let list: Vec<ResourceBlock> = read_resource_list(reader, section)?;
            reader::end_section(reader, section, 1)?;
            Ok(list)
        },
    }
}

/// A resource: signature, number, empty name, length and payload.
pub open spec fn resource_bytes(resource: ResourceBlockView) -> Seq<u8> {
    bytes::u32_bytes(info::SIGNATURE_8BIM) + (bytes::u16_bytes(resource.id) + (bytes::zeros(2)
        + writer::section_bytes(resource.data, 2, false, false)))
}

/// The bytes of each resource.
pub open spec fn resource_pieces(list: Seq<ResourceBlockView>) -> Seq<Seq<u8>> {
    Seq::new(list.len(), |i: int| resource_bytes(list[i]))
}

/// The resources, one after the other.
pub open spec fn resources_body(list: Seq<ResourceBlockView>) -> Seq<u8> {
    bytes::concat(resource_pieces(list))
}

/// The image resources of a document.
pub open spec fn resources_bytes(list: Seq<ResourceBlockView>) -> Seq<u8> {
    writer::section_bytes(resources_body(list), 1, false, false)
}

fn write_resource(writer: &mut PsdWriter, resource: &ResourceBlock)
    requires
        old(writer).wf(),
    ensures
        writer::wrote(*old(writer), *final(writer), resource_bytes(resource.deep_view())),
{
    writer::write_uint32(writer, info::SIGNATURE_8BIM);
    writer::write_uint16(writer, resource.id);
    proof {
        reveal_strlit("");
    }
    writer::write_pascal_string(writer, "", 2);
    proof {
        assert(writer::pascal_bytes(""@, 2) =~= bytes::zeros(2));
    }
    info::write_payload(writer, &resource.data, false);
    assert(writer.data() =~= old(writer).data() + resource_bytes(resource.deep_view()));
}

/// Writes the image resources of a document.
pub fn write_resources(writer: &mut PsdWriter, list: &Vec<ResourceBlock>)
    requires
        old(writer).wf(),
    ensures
        writer::wrote(*old(writer), *final(writer), resources_bytes(list.deep_view())),
{
    let ghost view = list.deep_view();
    let ghost base = writer.data();
    let ghost body = resources_body(view);
    assert(base.len() == writer.offset);
    let start: usize = writer::begin_section(writer, false);
    let ghost open = writer.data();
    assert(open.len() == writer.offset);
    let mut i: usize = 0;
    assert(resource_pieces(view).take(0) =~= Seq::<Seq<u8>>::empty());
    assert(open + bytes::concat(resource_pieces(view).take(0)) =~= open);
    while i < list.len()
        invariant
            i <= list@.len(),
            view == list.deep_view(),
            writer.wf(),
            writer.temp_buffer == old(writer).temp_buffer,
            writer::grew(*old(writer), *writer),
            writer.data() == open + bytes::concat(resource_pieces(view).take(i as int)),
        decreases list@.len() - i,
    {
        write_resource(writer, &list[i]);
        proof {
            bytes::lemma_concat_take(resource_pieces(view), i as int);
            assert(writer.data() =~= open + bytes::concat(resource_pieces(view).take(i + 1)));
        }
        i += 1;
    }
    assert(resource_pieces(view).take(i as int) =~= resource_pieces(view));
    assert(writer.data() == open + body);
    assert(writer.data().len() == writer.offset);
    writer::end_section(writer, start, 1, false);
    proof {
        writer::lemma_section_written(base, body, 1, false, false);
        assert(writer.data().len() == writer.offset);
    }
}

/// A resource is read where it was written.
pub proof fn law_resource_round_trip(r: ReaderState, resource: ResourceBlockView)
    requires
        r.buffer.len() <= usize::MAX,
        resource.data.len() < 0x1_0000_0000,
        bytes::holds_at(r.buffer, r.offset, resource_bytes(resource)),
    ensures
        get_resource(r) == Ok::<(ResourceBlockView, ReaderState), ErrorView>(
            (resource, r.at(r.offset + resource_bytes(resource).len())),
        ),
        resource_bytes(resource).len() >= 12,
{
    let o = r.offset;
    let signature = bytes::u32_bytes(info::SIGNATURE_8BIM);
    let payload = writer::section_bytes(resource.data, 2, false, false);
    let name = bytes::zeros(2) + payload;
    let id = bytes::u16_bytes(resource.id) + name;
    bytes::lemma_holds_at_split(r.buffer, o, signature, id);
    bytes::lemma_holds_at_split(r.buffer, o + 4, bytes::u16_bytes(resource.id), name);
    bytes::lemma_holds_at_split(r.buffer, o + 6, bytes::zeros(2), payload);
    bytes::lemma_u32_at(r.buffer, o, info::SIGNATURE_8BIM);
    assert(info::get_block_signature(r, true) == Ok::<(u32, ReaderState), ErrorView>(
        (info::SIGNATURE_8BIM, r.at(o + 4)),
    ));
    roundtrip::law_uint16_round_trip(r.at(o + 4), resource.id);
    assert(writer::pascal_bytes(Seq::<char>::empty(), 2) =~= bytes::zeros(2));
    roundtrip::law_pascal_string_round_trip(r.at(o + 6), Seq::empty(), 2);
    roundtrip::law_section_round_trip(r.at(o + 8), resource.data, 2, false, false, false);
    roundtrip::law_bytes_round_trip(r.at(o + 12), resource.data);
}

/// The resources of a list that are not passed over.
pub open spec fn kept_resources(
    list: Seq<ResourceBlockView>,
    skip_thumbnail: Option<bool>,
) -> Seq<ResourceBlockView> {
    list.filter(|resource: ResourceBlockView| !left_out(resource.id, skip_thumbnail))
}

proof fn lemma_list_read_back(
    r: ReaderState,
    base: int,
    list: Seq<ResourceBlockView>,
    k: int,
)
    requires
        r.buffer.len() <= usize::MAX,
        forall|i: int|
            0 <= i < list.len() ==> (#[trigger] list[i]).data.len() < 0x1_0000_0000,
        0 <= k <= list.len(),
        bytes::holds_at(r.buffer, base, resources_body(list)),
        r.offset == base + bytes::concat(resource_pieces(list).take(k)).len(),
    ensures
        get_resource_list(
            r,
            base + resources_body(list).len() as int,
            kept_resources(list.take(k), r.options.skip_thumbnail),
        ) == Ok::<(Seq<ResourceBlockView>, ReaderState), ErrorView>(
            (
                kept_resources(list, r.options.skip_thumbnail),
                r.at(base + resources_body(list).len()),
            ),
        ),
    decreases list.len() - k,
{
    let skip = r.options.skip_thumbnail;
    let end = base + resources_body(list).len() as int;
    let pieces = resource_pieces(list);
    if k == list.len() {
        assert(list.take(k) =~= list);
        assert(pieces.take(k) =~= pieces);
    } else {
        bytes::lemma_holds_at_piece(r.buffer, base, pieces, k);
        law_resource_round_trip(r, list[k]);
        bytes::lemma_concat_take(pieces, k);
        bytes::lemma_concat_prefix(pieces, k + 1);
        let keep = |resource: ResourceBlockView| !left_out(resource.id, skip);
        assert(list.take(k + 1).drop_last() =~= list.take(k));
        assert(kept_resources(list.take(k + 1), skip) == (if left_out(list[k].id, skip) {
            kept_resources(list.take(k), skip)
        } else {
            kept_resources(list.take(k), skip).push(list[k])
        })) by {
            reveal(Seq::filter);
        }
        let r1 = r.at(base + bytes::concat(pieces.take(k + 1)).len());
        lemma_list_read_back(r1, base, list, k + 1);
    }
}

/// The resources of a document are read where they were written, without those
/// that are to be passed over.
pub proof fn law_resources_round_trip(r: ReaderState, list: Seq<ResourceBlockView>)
    requires
        r.buffer.len() <= usize::MAX,
        resources_body(list).len() < 0x1_0000_0000,
        bytes::holds_at(r.buffer, r.offset, resources_bytes(list)),
    ensures
        get_resources(r) == Ok::<(Seq<ResourceBlockView>, ReaderState), ErrorView>(
            (
                kept_resources(list, r.options.skip_thumbnail),
                r.at(r.offset + resources_bytes(list).len()),
            ),
        ),
{
    let body = resources_body(list);
    let pieces = resource_pieces(list);
    let skip = r.options.skip_thumbnail;
    roundtrip::law_section_round_trip(r, body, 1, false, false, true);
    assert forall|i: int| 0 <= i < list.len() implies (#[trigger] list[i]).data.len()
        < 0x1_0000_0000 by {
        bytes::lemma_concat_take(pieces, i);
        bytes::lemma_concat_prefix(pieces, i + 1);
        assert(pieces[i] == resource_bytes(list[i]));
    }
    assert(list.take(0) =~= Seq::<ResourceBlockView>::empty());
    assert(kept_resources(list.take(0), skip) =~= Seq::<ResourceBlockView>::empty()) by {
        reveal(Seq::filter);
    }
    assert(pieces.take(0) =~= Seq::<Seq<u8>>::empty());
    assert(bytes::concat(pieces.take(0)) =~= Seq::<u8>::empty());
    if body.len() == 0 {
        if list.len() > 0 {
            bytes::lemma_concat_take(pieces, 0);
            bytes::lemma_concat_prefix(pieces, 1);
            assert(pieces[0] == resource_bytes(list[0]));
            assert(false);
        }
        assert(list =~= list.take(0));
    } else {
        lemma_list_read_back(r.at(r.offset + 4), r.offset + 4, list, 0);
    }
}

} // verus!
