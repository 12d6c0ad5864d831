//! Decoding of the class-descriptor list and its property tables from a
//! memory snapshot, into an owned tree whose nesting is kept as a depth on
//! each field, in pre-order.

use vstd::prelude::*;
use crate::memory::ForeignMemory;

verus! {

/// Byte offsets of a descriptor's name, table and next pointers.
pub const CLASS_NAME_AT: u64 = 16;
pub const CLASS_TABLE_AT: u64 = 24;
pub const CLASS_NEXT_AT: u64 = 32;

/// Byte offsets of a table's property array, property count and name.
pub const TABLE_PROPS_AT: u64 = 0;
pub const TABLE_COUNT_AT: u64 = 8;
pub const TABLE_NAME_AT: u64 = 24;

/// Size of one property record, and the offsets of its fields.
pub const PROP_SIZE: u64 = 96;
pub const PROP_NAME_AT: u64 = 0;
pub const PROP_FLAGS_AT: u64 = 12;
pub const PROP_TABLE_AT: u64 = 64;
pub const PROP_OFFSET_AT: u64 = 72;
pub const PROP_STRIDE_AT: u64 = 76;
pub const PROP_ELEMENTS_AT: u64 = 80;

/// Tables nested this deep are not entered.
pub const MAX_DEPTH: usize = 32;

/// A table that declares more properties than this is malformed.
pub const MAX_PROPS: i32 = 4096;

/// At most this many descriptors are followed along the list.
pub const MAX_CLASSES: usize = 65536;

/// What became of a table reference.
#[derive(PartialEq, Eq, Structural, Clone, Copy, Debug)]
pub enum TableState {
    /// The reference is null.
    Absent,
    /// The table was read and its properties follow.
    Decoded,
    /// Its header or its property array lies outside the readable window, or
    /// its count is out of bounds.
    Malformed,
    /// It lies beyond the nesting bound and was not entered.
    TooDeep,
}

/// One property, `depth` tables below the descriptor's own table.
pub struct Field {
    pub depth: usize,
    pub name: Vec<u8>,
    pub offset: i32,
    pub flags: i32,
    pub stride: i32,
    pub elements: i32,
    pub child: TableState,
    pub child_name: Vec<u8>,
}

pub struct FieldView {
    pub depth: nat,
    pub name: Seq<u8>,
    pub offset: i32,
    pub flags: i32,
    pub stride: i32,
    pub elements: i32,
    pub child: TableState,
    pub child_name: Seq<u8>,
}

impl View for Field {
    type V = FieldView;

    open spec fn view(&self) -> FieldView {
        FieldView {
            depth: self.depth as nat,
            name: self.name@,
            offset: self.offset,
            flags: self.flags,
            stride: self.stride,
            elements: self.elements,
            child: self.child,
            child_name: self.child_name@,
        }
    }
}

/// One class descriptor with the fields of its table, in declaration order.
pub struct Descriptor {
    pub name: Vec<u8>,
    pub table: TableState,
    pub table_name: Vec<u8>,
    pub fields: Vec<Field>,
}

pub struct DescriptorView {
    pub name: Seq<u8>,
    pub table: TableState,
    pub table_name: Seq<u8>,
    pub fields: Seq<FieldView>,
}

pub open spec fn fields_view(fs: Seq<Field>) -> Seq<FieldView> {
    fs.map_values(|f: Field| f@)
}

impl View for Descriptor {
    type V = DescriptorView;

    open spec fn view(&self) -> DescriptorView {
        DescriptorView {
            name: self.name@,
            table: self.table,
            table_name: self.table_name@,
            fields: fields_view(self.fields@),
        }
    }
}

pub open spec fn descriptors_view(ds: Seq<Descriptor>) -> Seq<DescriptorView> {
    ds.map_values(|d: Descriptor| d@)
}

/// The word at `a`, with 0 for an unreadable one.
pub open spec fn word_or_null(mem: ForeignMemory, a: int) -> u64 {
    match mem.spec_word(a) {
        Some(v) => v,
        None => 0,
    }
}

/// The integer at `a`, with 0 for an unreadable one.
pub open spec fn int_or_zero(mem: ForeignMemory, a: int) -> i32 {
    match mem.spec_int(a) {
        Some(v) => v,
        None => 0,
    }
}

/// The table at `t` has a readable header, a count within bounds, and a
/// property array that lies wholly inside the window.
pub open spec fn table_valid(mem: ForeignMemory, t: int) -> bool {
    match (mem.spec_word(t + TABLE_PROPS_AT), mem.spec_int(t + TABLE_COUNT_AT)) {
        (Some(props), Some(n)) => 0 <= n <= MAX_PROPS && (n == 0 || mem.covers(
            props as int,
            n * PROP_SIZE,
        )),
        _ => false,
    }
}

pub open spec fn table_state(mem: ForeignMemory, t: int, depth: nat) -> TableState {
    if t == 0 {
        TableState::Absent
    } else if depth >= MAX_DEPTH {
        TableState::TooDeep
    } else if table_valid(mem, t) {
        TableState::Decoded
    } else {
        TableState::Malformed
    }
}

/// The name of the table at `t`, empty where it cannot be read.
#[verifier::opaque]
pub open spec fn table_name(mem: ForeignMemory, t: int) -> Seq<u8> {
    if t == 0 {
        Seq::empty()
    } else {
        mem.spec_cstr(word_or_null(mem, t + TABLE_NAME_AT) as int)
    }
}

/// The property record at `p`, in a table at nesting depth `depth`.
#[verifier::opaque]
pub open spec fn field_at(mem: ForeignMemory, p: int, depth: nat) -> FieldView {
    let c = word_or_null(mem, p + PROP_TABLE_AT) as int;
    FieldView {
        depth,
        name: mem.spec_cstr(word_or_null(mem, p + PROP_NAME_AT) as int),
        offset: int_or_zero(mem, p + PROP_OFFSET_AT),
        flags: int_or_zero(mem, p + PROP_FLAGS_AT),
        stride: int_or_zero(mem, p + PROP_STRIDE_AT),
        elements: int_or_zero(mem, p + PROP_ELEMENTS_AT),
        child: table_state(mem, c, depth + 1),
        child_name: table_name(mem, c),
    }
}

/// The fields of the table at `t` and of the tables below it, in pre-order.
pub open spec fn table_fields(mem: ForeignMemory, t: int, depth: nat) -> Seq<FieldView>
    decreases MAX_DEPTH - depth, 1int, 0int,
{
    if table_state(mem, t, depth) == TableState::Decoded {
        props_fields(
            mem,
            word_or_null(mem, t + TABLE_PROPS_AT) as int,
            int_or_zero(mem, t + TABLE_COUNT_AT) as int,
            0,
            depth,
        )
    } else {
        Seq::empty()
    }
}

/// The fields of the records `i..n` of the array at `props`, each followed
/// by those of its child table.
pub open spec fn props_fields(mem: ForeignMemory, props: int, n: int, i: int, depth: nat) -> Seq<
    FieldView,
>
    decreases MAX_DEPTH - depth, 0int, n - i,
{
    if i >= n || depth >= MAX_DEPTH || i < 0 {
        Seq::empty()
    } else {
        let p = props + i * PROP_SIZE;
        seq![field_at(mem, p, depth)] + table_fields(
            mem,
            word_or_null(mem, p + PROP_TABLE_AT) as int,
            depth + 1,
        ) + props_fields(mem, props, n, i + 1, depth)
    }
}

/// A record whose child table is absent, malformed or too deep contributes
/// its own line and nothing else: decoding goes on with its next sibling
/// exactly as if that branch had not been there.
pub proof fn law_halted_branch_keeps_siblings(
    mem: ForeignMemory,
    props: int,
    n: int,
    i: int,
    depth: nat,
)
    requires
        0 <= i < n,
        depth < MAX_DEPTH,
        table_state(
            mem,
            word_or_null(mem, props + i * PROP_SIZE + PROP_TABLE_AT) as int,
            depth + 1,
        ) != TableState::Decoded,
    ensures
        props_fields(mem, props, n, i, depth) == seq![field_at(mem, props + i * PROP_SIZE, depth)]
            + props_fields(mem, props, n, i + 1, depth),
{
    let p = props + i * PROP_SIZE;
    let rest = props_fields(mem, props, n, i + 1, depth);
    assert(table_fields(mem, word_or_null(mem, p + PROP_TABLE_AT) as int, depth + 1) =~= Seq::<
        FieldView,
    >::empty());
    assert(seq![field_at(mem, p, depth)] + Seq::<FieldView>::empty() + rest =~= seq![
        field_at(mem, p, depth),
    ] + rest);
}

/// The table at `t` is well formed and declares `n` records.
pub open spec fn table_with_count(mem: ForeignMemory, t: int, n: int) -> bool {
    t != 0 && table_valid(mem, t) && int_or_zero(mem, t + TABLE_COUNT_AT) == n
}

/// The address of record `i` of the table at `t`.
pub open spec fn record_at(mem: ForeignMemory, t: int, i: int) -> int {
    word_or_null(mem, t + TABLE_PROPS_AT) + i * PROP_SIZE
}

/// The child table of record `i` of the table at `t`.
pub open spec fn record_child(mem: ForeignMemory, t: int, i: int) -> int {
    word_or_null(mem, record_at(mem, t, i) + PROP_TABLE_AT) as int
}

/// Two one-record tables whose records point at each other (`a -> b -> a`)
/// are entered level after level until the depth bound and no further: from
/// depth `d` they give `MAX_DEPTH - d` fields, one per level.
pub proof fn law_table_cycle_stops_at_depth_bound(mem: ForeignMemory, a: int, b: int, d: nat)
    requires
        d <= MAX_DEPTH,
        table_with_count(mem, a, 1),
        table_with_count(mem, b, 1),
        record_child(mem, a, 0) == b,
        record_child(mem, b, 0) == a,
    ensures
        table_fields(mem, a, d).len() == MAX_DEPTH - d,
        table_fields(mem, b, d).len() == MAX_DEPTH - d,
        forall|k: int|
            0 <= k < MAX_DEPTH - d ==> (#[trigger] table_fields(mem, a, d)[k]).depth == d + k,
        forall|k: int|
            0 <= k < MAX_DEPTH - d ==> (#[trigger] table_fields(mem, b, d)[k]).depth == d + k,
    decreases MAX_DEPTH - d,
{
    if d < MAX_DEPTH {
        law_table_cycle_stops_at_depth_bound(mem, a, b, d + 1);
        lemma_field_depth(mem, record_at(mem, a, 0), d);
        lemma_field_depth(mem, record_at(mem, b, 0), d);
        lemma_one_record(mem, a, b, d);
        lemma_one_record(mem, b, a, d);
    }
}

proof fn lemma_one_record(mem: ForeignMemory, a: int, b: int, d: nat)
    requires
        d < MAX_DEPTH,
        table_with_count(mem, a, 1),
        record_child(mem, a, 0) == b,
    ensures
        table_fields(mem, a, d) == seq![field_at(mem, record_at(mem, a, 0), d)] + table_fields(
            mem,
            b,
            d + 1,
        ),
{
    let props = word_or_null(mem, a + TABLE_PROPS_AT) as int;
    assert(props_fields(mem, props, 1, 1, d) =~= Seq::<FieldView>::empty());
    assert(props + 0 * PROP_SIZE == record_at(mem, a, 0));
    assert(seq![field_at(mem, record_at(mem, a, 0), d)] + table_fields(mem, b, d + 1) + Seq::<
        FieldView,
    >::empty() =~= seq![field_at(mem, record_at(mem, a, 0), d)] + table_fields(mem, b, d + 1));
}

/// A table of two records, the second of which holds a table of one record,
/// gives a tree of two levels: the two records at the table's own depth, then
/// the nested record once, one level deeper.
pub proof fn law_two_level_tree(mem: ForeignMemory, t: int, c: int, d: nat)
    requires
        d + 1 < MAX_DEPTH,
        table_with_count(mem, t, 2),
        record_child(mem, t, 0) == 0,
        record_child(mem, t, 1) == c,
        table_with_count(mem, c, 1),
        record_child(mem, c, 0) == 0,
    ensures
        table_fields(mem, t, d) == seq![
            field_at(mem, record_at(mem, t, 0), d),
            field_at(mem, record_at(mem, t, 1), d),
            field_at(mem, record_at(mem, c, 0), d + 1),
        ],
        table_fields(mem, t, d)[0].depth == d,
        table_fields(mem, t, d)[1].depth == d,
        table_fields(mem, t, d)[2].depth == d + 1,
{
    let props = word_or_null(mem, t + TABLE_PROPS_AT) as int;
    let none = Seq::<FieldView>::empty();
    let f0 = field_at(mem, record_at(mem, t, 0), d);
    let f1 = field_at(mem, record_at(mem, t, 1), d);
    let q0 = field_at(mem, record_at(mem, c, 0), d + 1);
    assert(table_fields(mem, 0, d + 1) =~= none);
    assert(table_fields(mem, 0, d + 2) =~= none);
    lemma_one_record(mem, c, 0, d + 1);
    assert(table_fields(mem, c, d + 1) =~= seq![q0]);
    assert(props_fields(mem, props, 2, 2, d) =~= none);
    assert(props + 1 * PROP_SIZE == record_at(mem, t, 1));
    assert(props_fields(mem, props, 2, 1, d) == seq![f1] + seq![q0] + none);
    assert(props + 0 * PROP_SIZE == record_at(mem, t, 0));
    assert(props_fields(mem, props, 2, 0, d) == seq![f0] + none + props_fields(mem, props, 2, 1, d));
    assert(table_fields(mem, t, d) =~= seq![f0, f1, q0]);
    lemma_field_depth(mem, record_at(mem, t, 0), d);
    lemma_field_depth(mem, record_at(mem, t, 1), d);
    lemma_field_depth(mem, record_at(mem, c, 0), d + 1);
}

proof fn lemma_field_depth(mem: ForeignMemory, p: int, d: nat)
    ensures
        field_at(mem, p, d).depth == d,
{
    reveal(field_at);
}

/// The descriptor at `c` can be read.
pub open spec fn node_readable(mem: ForeignMemory, c: int) -> bool {
    &&& mem.spec_word(c + CLASS_NAME_AT) is Some
    &&& mem.spec_word(c + CLASS_TABLE_AT) is Some
    &&& mem.spec_word(c + CLASS_NEXT_AT) is Some
}

#[verifier::opaque]
pub open spec fn descriptor_at(mem: ForeignMemory, c: int) -> DescriptorView {
    let t = word_or_null(mem, c + CLASS_TABLE_AT) as int;
    DescriptorView {
        name: mem.spec_cstr(word_or_null(mem, c + CLASS_NAME_AT) as int),
        table: table_state(mem, t, 0),
        table_name: table_name(mem, t),
        fields: table_fields(mem, t, 0),
    }
}

/// The descriptors from the one at `c` along the list, the `k`-th first:
/// up to a null or unreadable link, or `MAX_CLASSES` in all.
pub open spec fn descriptors_from(mem: ForeignMemory, c: int, k: nat) -> Seq<DescriptorView>
    decreases MAX_CLASSES - k,
{
    if c == 0 || k >= MAX_CLASSES || !node_readable(mem, c) {
        Seq::empty()
    } else {
        seq![descriptor_at(mem, c)] + descriptors_from(
            mem,
            word_or_null(mem, c + CLASS_NEXT_AT) as int,
            k + 1,
        )
    }
}

/// The list head that a signature match leads to: the 32-bit displacement
/// `disp_at` bytes past the match, counted from `insn_end` bytes past it,
/// locates a slot; the slot points at the word that holds the head.
pub open spec fn root_from(mem: ForeignMemory, matched: int, disp_at: int, insn_end: int) -> Option<
    u64,
> {
    match mem.spec_read(matched + disp_at, 4) {
        Some(disp) => match mem.spec_word(disp + matched + insn_end) {
            Some(p) => mem.spec_word(p as int),
            None => None,
        },
        None => None,
    }
}

fn word_at(mem: &ForeignMemory, a: u64, off: u64) -> (r: Option<u64>)
    requires
        mem.wf(),
    ensures
        r == mem.spec_word(a + off),
{
    if a > u64::MAX - off {
        return None;
    }
    mem.read_word(a + off)
}

fn int_at(mem: &ForeignMemory, a: u64, off: u64) -> (r: Option<i32>)
    requires
        mem.wf(),
    ensures
        r == mem.spec_int(a + off),
{
    if a > u64::MAX - off {
        return None;
    }
    mem.read_int(a + off)
}

fn word_or_null_at(mem: &ForeignMemory, a: u64, off: u64) -> (r: u64)
    requires
        mem.wf(),
    ensures
        r == word_or_null(*mem, a + off),
{
    match word_at(mem, a, off) {
        Some(v) => v,
        None => 0,
    }
}

fn int_or_zero_at(mem: &ForeignMemory, a: u64, off: u64) -> (r: i32)
    requires
        mem.wf(),
    ensures
        r == int_or_zero(*mem, a + off),
{
    match int_at(mem, a, off) {
        Some(v) => v,
        None => 0,
    }
}

fn table_name_of(mem: &ForeignMemory, t: u64) -> (r: Vec<u8>)
    requires
        mem.wf(),
    ensures
        r@ == table_name(*mem, t as int),
{
    reveal(table_name);
    if t == 0 {
        return Vec::new();
    }
    mem.read_cstr(word_or_null_at(mem, t, TABLE_NAME_AT))
}

fn table_state_of(mem: &ForeignMemory, t: u64, depth: usize) -> (r: TableState)
    requires
        mem.wf(),
    ensures
        r == table_state(*mem, t as int, depth as nat),
{
    if t == 0 {
        return TableState::Absent;
    }
    if depth >= MAX_DEPTH {
        return TableState::TooDeep;
    }
    let props = match word_at(mem, t, TABLE_PROPS_AT) {
        Some(p) => p,
        None => {
            return TableState::Malformed;
        },
    };
    let n = match int_at(mem, t, TABLE_COUNT_AT) {
        Some(n) => n,
        None => {
            return TableState::Malformed;
        },
    };
    if n < 0 || n > MAX_PROPS {
        return TableState::Malformed;
    }
    if n == 0 {
        return TableState::Decoded;
    }
    let len: u64 = n as u64 * PROP_SIZE;
    let covered = props >= mem.base && len <= mem.bytes.len() as u64 && props - mem.base
        <= mem.bytes.len() as u64 - len;
    if covered {
        TableState::Decoded
    } else {
        TableState::Malformed
    }
}

fn field_of(mem: &ForeignMemory, p: u64, depth: usize) -> (r: Field)
    requires
        mem.wf(),
        depth < MAX_DEPTH,
    ensures
        r@ == field_at(*mem, p as int, depth as nat),
        r.depth == depth,
{
    reveal(field_at);
    let c = word_or_null_at(mem, p, PROP_TABLE_AT);
    Field {
        depth,
        name: mem.read_cstr(word_or_null_at(mem, p, PROP_NAME_AT)),
        offset: int_or_zero_at(mem, p, PROP_OFFSET_AT),
        flags: int_or_zero_at(mem, p, PROP_FLAGS_AT),
        stride: int_or_zero_at(mem, p, PROP_STRIDE_AT),
        elements: int_or_zero_at(mem, p, PROP_ELEMENTS_AT),
        child: table_state_of(mem, c, depth + 1),
        child_name: table_name_of(mem, c),
    }
}

/// Appends the fields of the table at `t` (at nesting depth `depth`) and of
/// the tables below it, in pre-order.
fn walk_table(mem: &ForeignMemory, t: u64, depth: usize, out: &mut Vec<Field>)
    requires
        mem.wf(),
        depth <= MAX_DEPTH,
    ensures
        fields_view(final(out)@) == fields_view(old(out)@) + table_fields(*mem, t as int, depth as nat),
        forall|j: int|
            old(out)@.len() <= j < final(out)@.len() ==> depth <= (#[trigger] final(out)@[j]).depth
                < MAX_DEPTH,
        final(out)@.subrange(0, old(out)@.len() as int) == old(out)@,
    decreases MAX_DEPTH - depth,
{
    if table_state_of(mem, t, depth) != TableState::Decoded {
        assert(fields_view(out@) =~= fields_view(out@) + Seq::<FieldView>::empty());
        assert(out@.subrange(0, out@.len() as int) =~= out@);
        return;
    }
    let props = word_or_null_at(mem, t, TABLE_PROPS_AT);
    let n = int_or_zero_at(mem, t, TABLE_COUNT_AT) as u64;
    let ghost start = out@;
    let ghost whole = props_fields(*mem, props as int, n as int, 0, depth as nat);
    assert(fields_view(out@) + whole =~= fields_view(start) + whole);
    let mut i: u64 = 0;
    while i < n
        invariant
            mem.wf(),
            depth < MAX_DEPTH,
            i <= n <= MAX_PROPS,
            n == 0 || mem.covers(props as int, n * PROP_SIZE),
            whole == props_fields(*mem, props as int, n as int, 0, depth as nat),
            fields_view(out@) + props_fields(*mem, props as int, n as int, i as int, depth as nat)
                == fields_view(start) + whole,
            forall|j: int|
                start.len() <= j < out@.len() ==> depth <= (#[trigger] out@[j]).depth < MAX_DEPTH,
            start.len() <= out@.len(),
            out@.subrange(0, start.len() as int) == start,
        decreases n - i,
    {
        assert(i * PROP_SIZE < n * PROP_SIZE) by (nonlinear_arith)
            requires
                i < n,
        ;
        let p = props + i * PROP_SIZE;
        let ghost before = out@;
        let ghost rest = props_fields(*mem, props as int, n as int, i + 1, depth as nat);
        let f = field_of(mem, p, depth);
        let c = word_or_null_at(mem, p, PROP_TABLE_AT);
        let ghost fv = f@;
        let ghost gf = f;
        out.push(f);
        let ghost pushed = out@;
        assert(pushed == before.push(gf));
        assert(fields_view(out@) =~= fields_view(before) + seq![fv]);
        walk_table(mem, c, depth + 1, out);
        proof {
            let sub = table_fields(*mem, c as int, (depth + 1) as nat);
            assert(fields_view(out@) + rest =~= fields_view(before) + (seq![fv] + sub + rest));
            assert forall|j: int| 0 <= j < pushed.len() implies out@[j] == pushed[j] by {
                assert(out@.subrange(0, pushed.len() as int)[j] == out@[j]);
            }
            assert(out@.subrange(0, start.len() as int) =~= start) by {
                assert forall|j: int| 0 <= j < start.len() implies out@[j] == start[j] by {
                    assert(pushed[j] == before[j]);
                    assert(before.subrange(0, start.len() as int)[j] == before[j]);
                    assert(before.subrange(0, start.len() as int)[j] == start[j]);
                }
            }
            assert forall|j: int| start.len() <= j < out@.len() implies depth <= (
            #[trigger] out@[j]).depth < MAX_DEPTH by {
                if j < before.len() {
                    assert(pushed[j] == before[j]);
                    assert(out@[j] == pushed[j]);
                } else if j == before.len() {
                    assert(out@[j] == pushed[j]);
                    assert(pushed[j] == gf);
                }
            }
        }
        i = i + 1;
    }
    assert(fields_view(out@) =~= fields_view(out@) + props_fields(
        *mem,
        props as int,
        n as int,
        i as int,
        depth as nat,
    ));
}

/// The name, table and next pointers of the descriptor at `c`.
pub open spec fn node_links_spec(mem: ForeignMemory, c: int) -> Option<(u64, u64, u64)> {
    if node_readable(mem, c) {
        Some(
            (
                word_or_null(mem, c + CLASS_NAME_AT),
                word_or_null(mem, c + CLASS_TABLE_AT),
                word_or_null(mem, c + CLASS_NEXT_AT),
            ),
        )
    } else {
        None
    }
}

fn node_links(mem: &ForeignMemory, c: u64) -> (r: Option<(u64, u64, u64)>)
    requires
        mem.wf(),
    ensures
        r == node_links_spec(*mem, c as int),
{
    let name_ptr = word_at(mem, c, CLASS_NAME_AT)?;
    let t = word_at(mem, c, CLASS_TABLE_AT)?;
    let next = word_at(mem, c, CLASS_NEXT_AT)?;
    Some((name_ptr, t, next))
}

/// Decodes the descriptor at `c`, whose name and table pointers are given.
fn descriptor_of(mem: &ForeignMemory, c: u64, name_ptr: u64, t: u64) -> (r: Descriptor)
    requires
        mem.wf(),
        node_links_spec(*mem, c as int) matches Some(l) && l.0 == name_ptr && l.1 == t,
    ensures
        r@ == descriptor_at(*mem, c as int),
        forall|j: int| 0 <= j < r.fields@.len() ==> (#[trigger] r.fields@[j]).depth < MAX_DEPTH,
{
    let mut fields: Vec<Field> = Vec::new();
    walk_table(mem, t, 0, &mut fields);
    assert(fields_view(fields@) =~= table_fields(*mem, t as int, 0));
    let r = Descriptor {
        name: mem.read_cstr(name_ptr),
        table: table_state_of(mem, t, 0),
        table_name: table_name_of(mem, t),
        fields,
    };
    proof {
        reveal(descriptor_at);
    }
    r
}

impl ForeignMemory {
    /// Follows the list from `root` and decodes every descriptor with its
    /// table tree. Stops at a null or unreadable link or after `MAX_CLASSES`
    /// descriptors; a malformed or too deeply nested table ends only its
    /// own branch.
    pub fn walk(&self, root: u64) -> (r: Vec<Descriptor>)
        requires
            self.wf(),
        ensures
            descriptors_view(r@) == descriptors_from(*self, root as int, 0),
            forall|i: int, j: int|
                0 <= i < r@.len() && 0 <= j < r@[i].fields@.len() ==> (#[trigger] r@[i].fields@[j]).depth
                    < MAX_DEPTH,
    {
        let mut out: Vec<Descriptor> = Vec::new();
        let mut c: u64 = root;
        let mut k: usize = 0;
        let mut links = node_links(self, c);
        assert(descriptors_view(out@) + descriptors_from(*self, root as int, 0) =~= descriptors_from(
            *self,
            root as int,
            0,
        ));
        while c != 0 && k < MAX_CLASSES && links.is_some()
            invariant
                self.wf(),
                k <= MAX_CLASSES,
                links == node_links_spec(*self, c as int),
                descriptors_view(out@) + descriptors_from(*self, c as int, k as nat)
                    == descriptors_from(*self, root as int, 0),
                forall|i: int, j: int|
                    0 <= i < out@.len() && 0 <= j < out@[i].fields@.len() ==> (
                    #[trigger] out@[i].fields@[j]).depth < MAX_DEPTH,
            decreases MAX_CLASSES - k,
        {
            let (name_ptr, t, next) = links.unwrap();
            let d = descriptor_of(self, c, name_ptr, t);
            let ghost before = out@;
            let ghost gd = d;
            out.push(d);
            proof {
                assert(out@ == before.push(gd));
                assert(descriptors_view(out@) =~= descriptors_view(before) + seq![gd@]);
                assert(descriptors_from(*self, c as int, k as nat) == seq![gd@] + descriptors_from(
                    *self,
                    next as int,
                    (k + 1) as nat,
                ));
                assert(descriptors_view(out@) + descriptors_from(*self, next as int, (k + 1) as nat)
                    =~= descriptors_view(before) + descriptors_from(*self, c as int, k as nat));
                assert forall|i: int, j: int|
                    0 <= i < out@.len() && 0 <= j < out@[i].fields@.len() implies (
                    #[trigger] out@[i].fields@[j]).depth < MAX_DEPTH by {
                    if i < before.len() {
                        assert(out@[i] == before[i]);
                    }
                }
            }
            c = next;
            k = k + 1;
            links = node_links(self, c);
        }
        assert(descriptors_view(out@) =~= descriptors_view(out@) + descriptors_from(
            *self,
            c as int,
            k as nat,
        ));
        out
    }

    /// Finds the list head from the address of a signature match; `None`
    /// where a word on the way cannot be read.
    pub fn resolve_root(&self, matched: u64, disp_at: u64, insn_end: u64) -> (r: Option<u64>)
        requires
            self.wf(),
        ensures
            r == root_from(*self, matched as int, disp_at as int, insn_end as int),
    {
        if matched > u64::MAX - disp_at {
            return None;
        }
        let disp = self.read(matched + disp_at, 4)?;
        if disp > u64::MAX - matched || disp + matched > u64::MAX - insn_end {
            return None;
        }
        let slot = self.read_word(disp + matched + insn_end)?;
        self.read_word(slot)
    }
}

} // verus!
