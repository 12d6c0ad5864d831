//! The indented text of a decoded descriptor list.

use vstd::prelude::*;
use crate::pattern::{hex_digit, hex_digit_of};
use crate::walker::{
    Descriptor, DescriptorView, Field, FieldView, TableState, descriptors_view, fields_view,
};

verus! {

/// `v` as `n` upper-case hexadecimal digits, most significant first.
pub open spec fn hex_text(v: nat, n: nat) -> Seq<u8>
    decreases n,
{
    if n == 0 {
        Seq::empty()
    } else {
        hex_text(v / 16, (n - 1) as nat).push(hex_digit((v % 16) as u8))
    }
}

/// Two spaces per level.
pub open spec fn indent(n: nat) -> Seq<u8> {
    Seq::new(2 * n, |i: int| 32u8)
}

/// ` -> `
pub open spec fn arrow() -> Seq<u8> {
    seq![32u8, 45u8, 62u8, 32u8]
}

/// ` (malformed)`
pub open spec fn malformed_note() -> Seq<u8> {
    seq![32u8, 40u8, 109u8, 97u8, 108u8, 102u8, 111u8, 114u8, 109u8, 101u8, 100u8, 41u8]
}

/// ` (too deep)`
pub open spec fn too_deep_note() -> Seq<u8> {
    seq![32u8, 40u8, 116u8, 111u8, 111u8, 32u8, 100u8, 101u8, 101u8, 112u8, 41u8]
}

/// ` @ 0x`
pub open spec fn offset_mark() -> Seq<u8> {
    seq![32u8, 64u8, 32u8, 48u8, 120u8]
}

/// How a table reference is shown after the name that holds it.
pub open spec fn table_text(state: TableState, name: Seq<u8>) -> Seq<u8> {
    match state {
        TableState::Absent => Seq::empty(),
        TableState::Decoded => arrow() + name,
        TableState::Malformed => arrow() + name + malformed_note(),
        TableState::TooDeep => arrow() + name + too_deep_note(),
    }
}

/// One line per field: indented one level deeper than its table, then its
/// name, its offset as eight hex digits, and its child table if any.
pub open spec fn field_line(f: FieldView) -> Seq<u8> {
    indent(f.depth + 1) + f.name + offset_mark() + hex_text(f.offset as u32 as nat, 8) + table_text(
        f.child,
        f.child_name,
    ) + seq![10u8]
}

pub open spec fn fields_text(fs: Seq<FieldView>) -> Seq<u8>
    decreases fs.len(),
{
    if fs.len() == 0 {
        Seq::empty()
    } else {
        fields_text(fs.drop_last()) + field_line(fs.last())
    }
}

/// A descriptor's line, its name and table, then the lines of its fields.
pub open spec fn descriptor_text(d: DescriptorView) -> Seq<u8> {
    d.name + table_text(d.table, d.table_name) + seq![10u8] + fields_text(d.fields)
}

pub open spec fn render_spec(ds: Seq<DescriptorView>) -> Seq<u8>
    decreases ds.len(),
{
    if ds.len() == 0 {
        Seq::empty()
    } else {
        render_spec(ds.drop_last()) + descriptor_text(ds.last())
    }
}

fn push_all(out: &mut Vec<u8>, b: &[u8])
    ensures
        final(out)@ == old(out)@ + b@,
{
    let mut i: usize = 0;
    while i < b.len()
        invariant
            i <= b@.len(),
            out@ == old(out)@ + b@.subrange(0, i as int),
        decreases b@.len() - i,
    {
        out.push(b[i]);
        assert(b@.subrange(0, i + 1) =~= b@.subrange(0, i as int).push(b[i as int]));
        i = i + 1;
    }
    assert(b@.subrange(0, i as int) =~= b@);
}

fn push_hex(out: &mut Vec<u8>, v: u32, n: usize)
    ensures
        final(out)@ == old(out)@ + hex_text(v as nat, n as nat),
    decreases n,
{
    if n == 0 {
        assert(old(out)@ + hex_text(v as nat, 0) =~= old(out)@);
        return;
    }
    push_hex(out, v / 16, n - 1);
    out.push(hex_digit_of((v % 16) as u8));
    assert(out@ =~= old(out)@ + hex_text(v as nat, n as nat));
}

fn push_indent(out: &mut Vec<u8>, n: usize)
    ensures
        final(out)@ == old(out)@ + indent(n as nat),
{
    let mut i: usize = 0;
    while i < n
        invariant
            i <= n,
            out@ == old(out)@ + indent(i as nat),
        decreases n - i,
    {
        out.push(32u8);
        out.push(32u8);
        assert(out@ =~= old(out)@ + indent((i + 1) as nat));
        i = i + 1;
    }
}

fn push_table(out: &mut Vec<u8>, state: TableState, name: &Vec<u8>)
    ensures
        final(out)@ == old(out)@ + table_text(state, name@),
{
    match state {
        TableState::Absent => {
            assert(out@ =~= out@ + Seq::<u8>::empty());
            return;
        },
        _ => {},
    }
    push_all(out, vec![32u8, 45u8, 62u8, 32u8].as_slice());
    push_all(out, name.as_slice());
    match state {
        TableState::Malformed => {
            push_all(
                out,
                vec![32u8, 40u8, 109u8, 97u8, 108u8, 102u8, 111u8, 114u8, 109u8, 101u8, 100u8, 41u8].as_slice(),
            );
        },
        TableState::TooDeep => {
            push_all(
                out,
                vec![32u8, 40u8, 116u8, 111u8, 111u8, 32u8, 100u8, 101u8, 101u8, 112u8, 41u8].as_slice(),
            );
        },
        _ => {},
    }
    assert(out@ =~= old(out)@ + table_text(state, name@));
}

fn push_field(out: &mut Vec<u8>, f: &Field)
    requires
        f.depth < usize::MAX,
    ensures
        final(out)@ == old(out)@ + field_line(f@),
{
    push_indent(out, f.depth + 1);
    push_all(out, f.name.as_slice());
    push_all(out, vec![32u8, 64u8, 32u8, 48u8, 120u8].as_slice());
    push_hex(out, f.offset as u32, 8);
    push_table(out, f.child, &f.child_name);
    out.push(10u8);
    assert(out@ =~= old(out)@ + field_line(f@));
}

/// Writes the tree of `descs`: for each descriptor a line with its name and
/// table, then one line per field, indented by its nesting depth.
pub fn render(descs: &Vec<Descriptor>) -> (r: Vec<u8>)
    requires
        forall|i: int, j: int|
            0 <= i < descs@.len() && 0 <= j < descs@[i].fields@.len() ==> (#[trigger] descs@[i].fields@[j]).depth
                < usize::MAX,
    ensures
        r@ == render_spec(descriptors_view(descs@)),
{
    let mut out: Vec<u8> = Vec::new();
    let mut i: usize = 0;
    while i < descs.len()
        invariant
            i <= descs@.len(),
            forall|i: int, j: int|
                0 <= i < descs@.len() && 0 <= j < descs@[i].fields@.len() ==> (
                #[trigger] descs@[i].fields@[j]).depth < usize::MAX,
            out@ == render_spec(descriptors_view(descs@.take(i as int))),
        decreases descs@.len() - i,
    {
        let d = &descs[i];
        let ghost before = out@;
        push_all(&mut out, d.name.as_slice());
        push_table(&mut out, d.table, &d.table_name);
        out.push(10u8);
        let ghost head = out@;
        let mut j: usize = 0;
        while j < d.fields.len()
            invariant
                j <= d.fields@.len(),
                *d == descs@[i as int],
                i < descs@.len(),
                forall|i: int, j: int|
                    0 <= i < descs@.len() && 0 <= j < descs@[i].fields@.len() ==> (
                    #[trigger] descs@[i].fields@[j]).depth < usize::MAX,
                out@ == head + fields_text(fields_view(d.fields@.take(j as int))),
            decreases d.fields@.len() - j,
        {
            assert(descs@[i as int].fields@[j as int].depth < usize::MAX);
            push_field(&mut out, &d.fields[j]);
            proof {
                let fs = fields_view(d.fields@.take(j + 1));
                assert(fs.drop_last() =~= fields_view(d.fields@.take(j as int)));
                assert(fs.last() == d.fields@[j as int]@);
                assert(out@ =~= head + fields_text(fs));
            }
            j = j + 1;
        }
        proof {
            assert(d.fields@.take(j as int) =~= d.fields@);
            let ds = descriptors_view(descs@.take(i + 1));
            assert(ds.drop_last() =~= descriptors_view(descs@.take(i as int)));
            assert(ds.last() == d@);
            assert(out@ =~= render_spec(ds));
        }
        i = i + 1;
    }
    assert(descs@.take(i as int) =~= descs@);
    out
}

} // verus!
