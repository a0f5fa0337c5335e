//! What a deck code reads back as: the bytes `encode_as` writes decode to
//! the deck it was given, card for card and copy for copy.
use vstd::prelude::*;
use crate::riftbound::card_code::{
    lemma_set_round_trip, lemma_variant_round_trip, spec_wire, variant_wire, CardCode, CardNumber,
    SetCode, Variant,
};
use crate::riftbound::deck_code::{
    cards_acc, count_block, fixed_acc, fixed_bytes, group_list_bytes, groups_acc, groups_bytes,
    groups_for, number_bytes, numbers_bytes, read_group_header, read_number, read_set_variant,
    read_sparse, read_varint, sparse_acc, sparse_blocks, sparse_bytes, counts_desc, varint_bytes,
    varint_from, alphabet, alphabet_value, b32_dec_state, b32_emit, b32_state, base32,
    base32_bytes, champion_bytes, code_bytes, decode_body, decode_bytes, deck_flagged,
    read_champion, sections_bytes, copies_of, held, insert_desc, numbers_in, set_at, variant_at,
    groups_from, add_copies, aggregate_spec, any_over, counts_fit, decode_text, encode_as_spec,
    encode_spec, auto_version, lemma_aggregate_held, lemma_normal_when_unprefixed, code_key,
    lemma_held_ge, CodeEntry, DeckSpec, DecodeFault, Group, Totals,
    MAIN_COUNT_CEILING, SECTION_LIMIT, SIDE_COUNT_CEILING,
};
use crate::text::{is_ws, trim, trim_end, trim_start};

verus! {

/// The bytes of `b` from `pos` on begin with `e`.
pub open spec fn at(b: Seq<u8>, pos: int, e: Seq<u8>) -> bool {
    0 <= pos && pos + e.len() <= b.len() && b.subrange(pos, pos + e.len()) == e
}

pub proof fn lemma_at_split(b: Seq<u8>, pos: int, x: Seq<u8>, y: Seq<u8>)
    requires
        at(b, pos, x + y),
    ensures
        at(b, pos, x),
        at(b, pos + x.len(), y),
{
    assert(b.subrange(pos, pos + x.len()) =~= (x + y).subrange(0, x.len() as int));
    assert((x + y).subrange(0, x.len() as int) =~= x);
    assert(b.subrange(pos + x.len(), pos + x.len() + y.len()) =~= (x + y).subrange(x.len() as int, (x.len() + y.len()) as int));
    assert((x + y).subrange(x.len() as int, (x.len() + y.len()) as int) =~= y);
}

pub proof fn lemma_at_first(b: Seq<u8>, pos: int, e: Seq<u8>)
    requires
        at(b, pos, e),
        e.len() > 0,
    ensures
        b[pos] == e[0],
{
    assert(b.subrange(pos, pos + e.len())[0] == b[pos]);
}

/// The bits of `v` below bit `shift`.
pub open spec fn low_bits(v: u32, shift: u32) -> u64 {
    (v as u64) & (((1u64 << (shift as u64)) - 1) as u64)
}

proof fn lemma_varint_step(v: u32, shift: u32)
    requires
        shift <= 28,
    ensures
        ((v >> shift) >> 7u32) == v >> ((shift + 7) as u32),
        (low_bits(v, shift) | (((((v >> shift) & 0x7fu32) as u8) & 0x7fu8) as u64) << (shift as u64)) == low_bits(v, (shift + 7) as u32),
        (low_bits(v, shift) | ((((((v >> shift) & 0x7fu32) as u8) | 0x80u8) & 0x7fu8) as u64) << (shift as u64)) == low_bits(v, (shift + 7) as u32),
        (v >> ((shift + 7) as u32)) == 0 ==> low_bits(v, (shift + 7) as u32) == v as u64,
        ((((v >> shift) & 0x7fu32) as u8) & 0x80u8) == 0,
        ((((((v >> shift) & 0x7fu32) as u8) | 0x80u8)) & 0x80u8) != 0,
        shift == 28 ==> (v >> shift) >> 7u32 == 0,
{
    let s7 = (shift + 7) as u32;
    assert(((v >> shift) >> 7u32) == v >> s7) by (bit_vector)
        requires
            shift <= 28,
            s7 == shift + 7,
    ;
    assert((low_bits(v, shift) | (((((v >> shift) & 0x7fu32) as u8) & 0x7fu8) as u64) << (shift as u64)) == low_bits(v, s7)) by (bit_vector)
        requires
            shift <= 28,
            s7 == shift + 7,
    ;
    assert((low_bits(v, shift) | ((((((v >> shift) & 0x7fu32) as u8) | 0x80u8) & 0x7fu8) as u64) << (shift as u64)) == low_bits(v, s7)) by (bit_vector)
        requires
            shift <= 28,
            s7 == shift + 7,
    ;
    assert((v >> s7) == 0 ==> low_bits(v, s7) == v as u64) by (bit_vector)
        requires
            shift <= 28,
            s7 == shift + 7,
    ;
    assert(((((v >> shift) & 0x7fu32) as u8) & 0x80u8) == 0) by (bit_vector);
    assert(((((((v >> shift) & 0x7fu32) as u8) | 0x80u8)) & 0x80u8) != 0) by (bit_vector);
    assert(shift == 28 ==> (v >> shift) >> 7u32 == 0) by (bit_vector);
}

/// Reading a varint from bytes that hold the varint of `v >> shift`, with
/// the bits of `v` below `shift` already gathered, gives `v`.
pub proof fn lemma_varint_from(b: Seq<u8>, pos: int, v: u32, shift: u32)
    requires
        shift <= 28,
        shift % 7 == 0,
        at(b, pos, varint_bytes(v >> shift)),
    ensures
        varint_from(b, pos, low_bits(v, shift), shift) == Ok::<(u32, int), crate::riftbound::deck_code::DecodeFault>((v, pos + varint_bytes(v >> shift).len())),
    decreases 35 - shift,
{
    let w = v >> shift;
    let byte0 = (w & 0x7f) as u8;
    let rest = (w >> 7u32) as u32;
    lemma_varint_step(v, shift);
    let e = varint_bytes(w);
    if rest != 0 {
        assert(e == seq![(byte0 | 0x80) as u8] + varint_bytes(rest));
        lemma_at_first(b, pos, e);
        lemma_at_split(b, pos, seq![(byte0 | 0x80) as u8], varint_bytes(rest));
        assert(shift < 28);
        let s7 = (shift + 7) as u32;
        assert(rest == v >> s7);
        let byte = b[pos];
        assert(byte == (byte0 | 0x80) as u8);
        let acc2 = (low_bits(v, shift) | (((byte & 0x7f) as u64) << (shift as u64))) as u64;
        assert(acc2 == low_bits(v, s7));
        assert(byte & 0x80 != 0);
        lemma_varint_from(b, pos + 1, v, s7);
        assert(e.len() == 1 + varint_bytes(rest).len());
    } else {
        assert(e == seq![byte0]);
        lemma_at_first(b, pos, e);
        let byte = b[pos];
        assert(byte == byte0);
        let acc2 = (low_bits(v, shift) | (((byte & 0x7f) as u64) << (shift as u64))) as u64;
        assert(acc2 == low_bits(v, (shift + 7) as u32));
        assert(acc2 == v as u64);
        assert(byte & 0x80 == 0);
    }
}

/// A varint reads back as the value written.
pub proof fn lemma_read_varint(b: Seq<u8>, pos: int, v: u32)
    requires
        at(b, pos, varint_bytes(v)),
    ensures
        read_varint(b, pos) == Ok::<(u32, int), crate::riftbound::deck_code::DecodeFault>((v, pos + varint_bytes(v).len())),
{
    assert(v >> 0u32 == v) by (bit_vector);
    assert(low_bits(v, 0) == 0) by (bit_vector);
    lemma_varint_from(b, pos, v, 0);
}

/// A card number reads back as the number written.
pub proof fn lemma_read_number(b: Seq<u8>, pos: int, n: CardNumber, flagged: bool)
    requires
        flagged || n is Normal,
        at(b, pos, number_bytes(n, flagged)),
    ensures
        read_number(b, pos, flagged) == Ok::<(CardNumber, int), DecodeFault>((n, pos + number_bytes(n, flagged).len())),
{
    let (flag, v) = crate::riftbound::deck_code::number_kind_flag(n);
    if flagged {
        lemma_at_split(b, pos, seq![flag], varint_bytes(v));
        lemma_at_first(b, pos, seq![flag]);
        lemma_read_varint(b, pos + 1, v);
    } else {
        lemma_read_varint(b, pos, v);
    }
}

/// The entries a group of numbers stands for.
pub open spec fn number_entries(nums: Seq<CardNumber>, set: SetCode, variant: Variant, count: u32) -> Seq<CodeEntry> {
    nums.map_values(|n: CardNumber| CodeEntry { code: CardCode { set, number: n, variant }, count })
}

proof fn lemma_numbers_bytes_front(nums: Seq<CardNumber>, flagged: bool)
    requires
        nums.len() > 0,
    ensures
        numbers_bytes(nums, flagged) == number_bytes(nums[0], flagged) + numbers_bytes(nums.drop_first(), flagged),
    decreases nums.len(),
{
    if nums.len() == 1 {
        assert(nums.drop_last() =~= Seq::<CardNumber>::empty());
        assert(nums.drop_first() =~= Seq::<CardNumber>::empty());
        assert(numbers_bytes(nums.drop_last(), flagged) == Seq::<u8>::empty());
        assert(numbers_bytes(nums.drop_first(), flagged) == Seq::<u8>::empty());
        assert(nums.last() == nums[0]);
        assert(numbers_bytes(nums, flagged) =~= number_bytes(nums[0], flagged) + numbers_bytes(nums.drop_first(), flagged));
    } else {
        lemma_numbers_bytes_front(nums.drop_last(), flagged);
        assert(nums.drop_last().drop_first() =~= nums.drop_first().drop_last());
        assert(nums.drop_first().last() == nums.last());
        assert(nums.drop_last()[0] == nums[0]);
        assert(numbers_bytes(nums, flagged) =~= number_bytes(nums[0], flagged) + numbers_bytes(nums.drop_first(), flagged));
    }
}

/// Numbers all plain unless every number carries its kind.
pub open spec fn numbers_ok(nums: Seq<CardNumber>, flagged: bool) -> bool {
    flagged || forall|i: int| 0 <= i < nums.len() ==> (#[trigger] nums[i]) is Normal
}

/// The numbers of a group read back as the entries written.
pub proof fn lemma_cards_acc(
    b: Seq<u8>,
    pos: int,
    nums: Seq<CardNumber>,
    set: SetCode,
    variant: Variant,
    count: u32,
    flagged: bool,
    acc: Seq<CodeEntry>,
)
    requires
        numbers_ok(nums, flagged),
        at(b, pos, numbers_bytes(nums, flagged)),
    ensures
        cards_acc(b, pos, nums.len(), set, variant, count, flagged, acc) == Ok::<(Seq<CodeEntry>, int), DecodeFault>(
            (acc + number_entries(nums, set, variant, count), pos + numbers_bytes(nums, flagged).len())),
    decreases nums.len(),
{
    if nums.len() == 0 {
        assert(acc + number_entries(nums, set, variant, count) =~= acc);
    } else {
        lemma_numbers_bytes_front(nums, flagged);
        let first = nums[0];
        let rest = nums.drop_first();
        lemma_at_split(b, pos, number_bytes(first, flagged), numbers_bytes(rest, flagged));
        assert(flagged || first is Normal);
        lemma_read_number(b, pos, first, flagged);
        let e = CodeEntry { code: CardCode { set, number: first, variant }, count };
        assert(numbers_ok(rest, flagged)) by {
            if !flagged {
                assert forall|i: int| 0 <= i < rest.len() implies (#[trigger] rest[i]) is Normal by {
                    assert(rest[i] == nums[i + 1]);
                }
            }
        }
        lemma_cards_acc(b, pos + number_bytes(first, flagged).len(), rest, set, variant, count, flagged, acc.push(e));
        assert(acc.push(e) + number_entries(rest, set, variant, count) =~= acc + number_entries(nums, set, variant, count));
    }
}

/// The wire byte written for a set.
pub open spec fn set_byte(s: SetCode) -> u8 {
    match spec_wire(s) {
        Some(w) => w,
        None => 255u8,
    }
}

/// One group's bytes: its size, set and variant, then its numbers.
pub open spec fn group_bytes(g: Group, flagged: bool) -> Seq<u8> {
    varint_bytes(g.1.len() as u32) + seq![set_byte(g.0.0), variant_wire(g.0.1)] + numbers_bytes(g.1, flagged)
}

proof fn lemma_group_list_front(groups: Seq<Group>, flagged: bool)
    requires
        groups.len() > 0,
    ensures
        group_list_bytes(groups, flagged) == group_bytes(groups[0], flagged) + group_list_bytes(groups.drop_first(), flagged),
    decreases groups.len(),
{
    if groups.len() == 1 {
        assert(groups.drop_last() =~= Seq::<Group>::empty());
        assert(groups.drop_first() =~= Seq::<Group>::empty());
        assert(group_list_bytes(groups.drop_last(), flagged) == Seq::<u8>::empty());
        assert(group_list_bytes(groups.drop_first(), flagged) == Seq::<u8>::empty());
        assert(groups.last() == groups[0]);
        assert(group_list_bytes(groups, flagged) =~= group_bytes(groups[0], flagged) + group_list_bytes(groups.drop_first(), flagged));
    } else {
        lemma_group_list_front(groups.drop_last(), flagged);
        assert(groups.drop_last().drop_first() =~= groups.drop_first().drop_last());
        assert(groups.drop_first().last() == groups.last());
        assert(groups.drop_last()[0] == groups[0]);
        assert(group_list_bytes(groups, flagged) =~= group_bytes(groups[0], flagged) + group_list_bytes(groups.drop_first(), flagged));
    }
}

/// The entries a list of groups stands for, in order.
pub open spec fn group_entries(groups: Seq<Group>, count: u32) -> Seq<CodeEntry>
    decreases groups.len(),
{
    if groups.len() == 0 {
        Seq::empty()
    } else {
        number_entries(groups[0].1, groups[0].0.0, groups[0].0.1, count) + group_entries(groups.drop_first(), count)
    }
}

/// A group that reads back: a set with a wire byte, not too many cards,
/// and numbers the flag allows.
pub open spec fn group_ok(g: Group, flagged: bool) -> bool {
    spec_wire(g.0.0) is Some && g.1.len() <= SECTION_LIMIT && numbers_ok(g.1, flagged)
}

pub open spec fn groups_ok(groups: Seq<Group>, flagged: bool) -> bool {
    forall|i: int| 0 <= i < groups.len() ==> group_ok(#[trigger] groups[i], flagged)
}

/// Groups read back as the entries written.
pub proof fn lemma_groups_acc(b: Seq<u8>, pos: int, groups: Seq<Group>, count: u32, flagged: bool, acc: Seq<CodeEntry>)
    requires
        groups_ok(groups, flagged),
        at(b, pos, group_list_bytes(groups, flagged)),
    ensures
        groups_acc(b, pos, groups.len(), count, flagged, acc) == Ok::<(Seq<CodeEntry>, int), DecodeFault>(
            (acc + group_entries(groups, count), pos + group_list_bytes(groups, flagged).len())),
    decreases groups.len(),
{
    if groups.len() == 0 {
        assert(acc + group_entries(groups, count) =~= acc);
    } else {
        lemma_group_list_front(groups, flagged);
        let g = groups[0];
        assert(group_ok(g, flagged));
        let ((set, variant), nums) = g;
        let rest = groups.drop_first();
        lemma_at_split(b, pos, group_bytes(g, flagged), group_list_bytes(rest, flagged));
        let head = varint_bytes(nums.len() as u32);
        let sv = seq![set_byte(set), variant_wire(variant)];
        lemma_at_split(b, pos, head + sv, numbers_bytes(nums, flagged));
        lemma_at_split(b, pos, head, sv);
        lemma_read_varint(b, pos, nums.len() as u32);
        let p = pos + head.len();
        lemma_set_round_trip(set);
        lemma_variant_round_trip(variant);
        assert(b.subrange(p, p + 2) == sv);
        assert(b[p] == sv[0]);
        assert(b[p + 1] == sv[1]);
        assert(read_set_variant(b, p) == Ok::<((SetCode, Variant), int), DecodeFault>(((set, variant), p + 2)));
        assert(read_group_header(b, pos) == Ok::<((u32, SetCode, Variant), int), DecodeFault>(((nums.len() as u32, set, variant), p + 2)));
        lemma_cards_acc(b, p + 2, nums, set, variant, count, flagged, acc);
        assert(groups_ok(rest, flagged)) by {
            assert forall|i: int| 0 <= i < rest.len() implies group_ok(#[trigger] rest[i], flagged) by {
                assert(rest[i] == groups[i + 1]);
            }
        }
        let acc2 = acc + number_entries(nums, set, variant, count);
        lemma_groups_acc(b, p + 2 + numbers_bytes(nums, flagged).len(), rest, count, flagged, acc2);
        assert(acc2 + group_entries(rest, count) =~= acc + group_entries(groups, count));
    }
}

/// A block of groups reads back as the entries written.
pub proof fn lemma_count_block(b: Seq<u8>, pos: int, groups: Seq<Group>, count: u32, flagged: bool, acc: Seq<CodeEntry>)
    requires
        groups_ok(groups, flagged),
        groups.len() <= SECTION_LIMIT,
        at(b, pos, groups_bytes(groups, flagged)),
    ensures
        count_block(b, pos, count, flagged, acc) == Ok::<(Seq<CodeEntry>, int), DecodeFault>(
            (acc + group_entries(groups, count), pos + groups_bytes(groups, flagged).len())),
{
    let head = varint_bytes(groups.len() as u32);
    lemma_at_split(b, pos, head, group_list_bytes(groups, flagged));
    lemma_read_varint(b, pos, groups.len() as u32);
    lemma_groups_acc(b, pos + head.len(), groups, count, flagged, acc);
}

/// The entries the fixed layout lists: blocks for `count` copies down to
/// one.
pub open spec fn fixed_entries(t: Totals, count: u32) -> Seq<CodeEntry>
    decreases count,
{
    if count == 0 {
        Seq::empty()
    } else {
        group_entries(groups_for(t, count), count) + fixed_entries(t, (count - 1) as u32)
    }
}

/// Totals that a code carries back: every set has a wire byte, there are
/// not too many cards, and numbers are plain unless flagged.
pub open spec fn totals_ok(t: Totals, flagged: bool) -> bool {
    &&& forall|set: SetCode, variant: Variant, c: u32|
        #[trigger] crate::riftbound::deck_code::numbers_in(t, set, variant, c).len() <= SECTION_LIMIT
    &&& forall|i: int| 0 <= i < t.len() ==> spec_wire((#[trigger] t[i]).0.set) is Some
    &&& (flagged || crate::riftbound::deck_code::all_normal(t))
}

proof fn lemma_numbers_in_facts(t: Totals, set: SetCode, variant: Variant, count: u32)
    ensures
        crate::riftbound::deck_code::numbers_in(t, set, variant, count).len() <= t.len(),
        crate::riftbound::deck_code::numbers_in(t, set, variant, count).len() > 0
            ==> exists|i: int| 0 <= i < t.len() && (#[trigger] t[i]).0.set == set,
    decreases t.len(),
{
    if t.len() > 0 {
        lemma_numbers_in_facts(t.drop_last(), set, variant, count);
        let rest = crate::riftbound::deck_code::numbers_in(t.drop_last(), set, variant, count);
        if rest.len() > 0 {
            let i = choose|i: int| 0 <= i < t.drop_last().len() && (#[trigger] t.drop_last()[i]).0.set == set;
            assert(t[i] == t.drop_last()[i]);
        }
        let (code, total) = t.last();
        if code.set == set {
            assert(t[t.len() - 1].0.set == set);
        }
    }
}

proof fn lemma_groups_from_ok(t: Totals, count: u32, flagged: bool, k: int)
    requires
        totals_ok(t, flagged),
    ensures
        groups_ok(groups_from_spec(t, count, k), flagged),
        0 <= k <= 40 ==> groups_from_spec(t, count, k).len() + k <= 40,
    decreases 40 - k,
{
    if 0 <= k < 40 {
        let set = crate::riftbound::deck_code::set_at(k / 4);
        let variant = crate::riftbound::deck_code::variant_at(k % 4);
        let nums = crate::riftbound::deck_code::numbers_in(t, set, variant, count);
        lemma_groups_from_ok(t, count, flagged, k + 1);
        lemma_numbers_in_facts(t, set, variant, count);
        if !flagged {
            crate::riftbound::deck_code::lemma_numbers_in_normal(t, set, variant, count);
        }
        let rest = groups_from_spec(t, count, k + 1);
        let here: Seq<Group> = if nums.len() > 0 {
            seq![((set, variant), nums)]
        } else {
            Seq::empty()
        };
        assert(groups_from_spec(t, count, k) == here + rest);
        if nums.len() > 0 {
            let i = choose|i: int| 0 <= i < t.len() && (#[trigger] t[i]).0.set == set;
            assert(spec_wire(t[i].0.set) is Some);
            assert(group_ok(((set, variant), nums), flagged));
        }
        assert forall|g: int| 0 <= g < (here + rest).len() implies group_ok(#[trigger] (here + rest)[g], flagged) by {
            if g < here.len() {
                assert((here + rest)[g] == here[g]);
            } else {
                assert((here + rest)[g] == rest[g - here.len()]);
            }
        }
    }
}

pub open spec fn groups_from_spec(t: Totals, count: u32, k: int) -> Seq<Group> {
    crate::riftbound::deck_code::groups_from(t, count, k)
}

/// The groups for a copy count read back.
pub proof fn lemma_groups_for_ok(t: Totals, count: u32, flagged: bool)
    requires
        totals_ok(t, flagged),
    ensures
        groups_ok(groups_for(t, count), flagged),
        groups_for(t, count).len() <= 40,
{
    lemma_groups_from_ok(t, count, flagged, 0);
}

/// The fixed layout reads back as the entries written.
pub proof fn lemma_fixed_acc(b: Seq<u8>, pos: int, t: Totals, count: u32, flagged: bool, acc: Seq<CodeEntry>)
    requires
        totals_ok(t, flagged),
        at(b, pos, fixed_bytes(t, count, flagged)),
    ensures
        fixed_acc(b, pos, count, flagged, acc) == Ok::<(Seq<CodeEntry>, int), DecodeFault>(
            (acc + fixed_entries(t, count), pos + fixed_bytes(t, count, flagged).len())),
    decreases count,
{
    if count == 0 {
        assert(acc + fixed_entries(t, count) =~= acc);
    } else {
        let groups = groups_for(t, count);
        lemma_groups_for_ok(t, count, flagged);
        let c1 = (count - 1) as u32;
        lemma_at_split(b, pos, groups_bytes(groups, flagged), fixed_bytes(t, c1, flagged));
        lemma_count_block(b, pos, groups, count, flagged, acc);
        let acc2 = acc + group_entries(groups, count);
        lemma_fixed_acc(b, pos + groups_bytes(groups, flagged).len(), t, c1, flagged, acc2);
        assert(acc2 + fixed_entries(t, c1) =~= acc + fixed_entries(t, count));
    }
}

/// The entries the sparse layout lists: a block per count, in the order
/// given.
pub open spec fn sparse_entries(t: Totals, counts: Seq<u32>) -> Seq<CodeEntry>
    decreases counts.len(),
{
    if counts.len() == 0 {
        Seq::empty()
    } else {
        group_entries(groups_for(t, counts[0]), counts[0]) + sparse_entries(t, counts.drop_first())
    }
}

proof fn lemma_sparse_blocks_front(t: Totals, counts: Seq<u32>, flagged: bool)
    requires
        counts.len() > 0,
    ensures
        sparse_blocks(t, counts, flagged) == varint_bytes(counts[0]) + groups_bytes(groups_for(t, counts[0]), flagged)
            + sparse_blocks(t, counts.drop_first(), flagged),
    decreases counts.len(),
{
    if counts.len() == 1 {
        assert(counts.drop_last() =~= Seq::<u32>::empty());
        assert(counts.drop_first() =~= Seq::<u32>::empty());
        assert(sparse_blocks(t, counts.drop_last(), flagged) == Seq::<u8>::empty());
        assert(sparse_blocks(t, counts.drop_first(), flagged) == Seq::<u8>::empty());
        assert(counts.last() == counts[0]);
        assert(sparse_blocks(t, counts, flagged) =~= varint_bytes(counts[0]) + groups_bytes(groups_for(t, counts[0]), flagged)
            + sparse_blocks(t, counts.drop_first(), flagged));
    } else {
        lemma_sparse_blocks_front(t, counts.drop_last(), flagged);
        assert(counts.drop_last().drop_first() =~= counts.drop_first().drop_last());
        assert(counts.drop_first().last() == counts.last());
        assert(counts.drop_last()[0] == counts[0]);
        assert(sparse_blocks(t, counts, flagged) =~= varint_bytes(counts[0]) + groups_bytes(groups_for(t, counts[0]), flagged)
            + sparse_blocks(t, counts.drop_first(), flagged));
    }
}

proof fn lemma_sparse_acc(b: Seq<u8>, pos: int, t: Totals, counts: Seq<u32>, flagged: bool, acc: Seq<CodeEntry>)
    requires
        totals_ok(t, flagged),
        at(b, pos, sparse_blocks(t, counts, flagged)),
    ensures
        sparse_acc(b, pos, counts.len(), flagged, acc) == Ok::<(Seq<CodeEntry>, int), DecodeFault>(
            (acc + sparse_entries(t, counts), pos + sparse_blocks(t, counts, flagged).len())),
    decreases counts.len(),
{
    if counts.len() == 0 {
        assert(acc + sparse_entries(t, counts) =~= acc);
    } else {
        lemma_sparse_blocks_front(t, counts, flagged);
        let c = counts[0];
        let groups = groups_for(t, c);
        lemma_groups_for_ok(t, c, flagged);
        let head = varint_bytes(c);
        let block = groups_bytes(groups, flagged);
        lemma_at_split(b, pos, head + block, sparse_blocks(t, counts.drop_first(), flagged));
        lemma_at_split(b, pos, head, block);
        lemma_read_varint(b, pos, c);
        lemma_count_block(b, pos + head.len(), groups, c, flagged, acc);
        let acc2 = acc + group_entries(groups, c);
        lemma_sparse_acc(b, pos + head.len() + block.len(), t, counts.drop_first(), flagged, acc2);
        assert(acc2 + sparse_entries(t, counts.drop_first()) =~= acc + sparse_entries(t, counts));
    }
}

/// The sparse layout reads back as the entries written.
pub proof fn lemma_read_sparse(b: Seq<u8>, pos: int, t: Totals, flagged: bool)
    requires
        totals_ok(t, flagged),
        counts_desc(t).len() <= SECTION_LIMIT,
        at(b, pos, sparse_bytes(t, flagged)),
    ensures
        read_sparse(b, pos, flagged) == Ok::<(Seq<CodeEntry>, int), DecodeFault>(
            (sparse_entries(t, counts_desc(t)), pos + sparse_bytes(t, flagged).len())),
{
    let counts = counts_desc(t);
    let head = varint_bytes(counts.len() as u32);
    lemma_at_split(b, pos, head, sparse_blocks(t, counts, flagged));
    lemma_read_varint(b, pos, counts.len() as u32);
    lemma_sparse_acc(b, pos + head.len(), t, counts, flagged, Seq::empty());
    assert(Seq::<CodeEntry>::empty() + sparse_entries(t, counts) =~= sparse_entries(t, counts));
}

// ---------------------------------------------------------------------------
// Base32 reads back
// ---------------------------------------------------------------------------

pub proof fn lemma_alphabet_round_trip(v: u32)
    requires
        v < 32,
    ensures
        alphabet_value(alphabet(v)) == Some(v),
        !is_ws(alphabet(v)),
{
}

/// The last byte the encoder has started and the decoder not finished:
/// the decoder's `8 - e` bits, then the encoder's `e` bits.
pub open spec fn joined(dbuf: u32, ebuf: u32, e: u32) -> u32 {
    if e == 1 {
        ((dbuf & 0x7f) << 1u32) | (ebuf & 1)
    } else if e == 2 {
        ((dbuf & 0x3f) << 2u32) | (ebuf & 3)
    } else if e == 3 {
        ((dbuf & 0x1f) << 3u32) | (ebuf & 7)
    } else {
        ((dbuf & 0xf) << 4u32) | (ebuf & 0xf)
    }
}

/// After the first `n` bytes, decoding what the encoder has written gives
/// every byte it has finished, and the decoder and encoder together hold
/// the bits of the one byte in between.
pub open spec fn b32_in_step(b: Seq<u8>, n: int) -> bool {
    let (out, ebuf, e) = b32_state(b.take(n));
    match b32_dec_state(out) {
        Err(_) => false,
        Ok((bo, dbuf, d)) => {
            ||| e == 0 && d == 0 && bo == b.take(n)
            ||| 1 <= e <= 4 && d == 8 - e && n >= 1 && bo == b.take(n - 1) && joined(dbuf, ebuf, e) == b[n - 1] as u32
        },
    }
}

proof fn lemma_bits_e0(buf: u32, ebuf: u32, y: u32, dbuf: u32, v1: u32, d1: u32) by (bit_vector)
    requires
        y < 256,
        buf == (ebuf << 8u32) | y,
        v1 == (buf >> 3u32) & 0x1f,
        d1 == (dbuf << 5u32) | v1,
    ensures
        v1 < 32,
        ((d1 & 0x1f) << 3u32) | (buf & 7) == y,
{
}

proof fn lemma_bits_e1(buf: u32, ebuf: u32, y: u32, dbuf: u32, v1: u32, d1: u32) by (bit_vector)
    requires
        y < 256,
        buf == (ebuf << 8u32) | y,
        v1 == (buf >> 4u32) & 0x1f,
        d1 == (dbuf << 5u32) | v1,
    ensures
        v1 < 32,
        (d1 >> 4u32) & 0xff == ((dbuf & 0x7f) << 1u32) | (ebuf & 1),
        ((d1 & 0xf) << 4u32) | (buf & 0xf) == y,
{
}

proof fn lemma_bits_e2(buf: u32, ebuf: u32, y: u32, dbuf: u32, v1: u32, d1: u32, v2: u32, d2: u32) by (bit_vector)
    requires
        y < 256,
        buf == (ebuf << 8u32) | y,
        v1 == (buf >> 5u32) & 0x1f,
        d1 == (dbuf << 5u32) | v1,
        v2 == (buf >> 0u32) & 0x1f,
        d2 == (d1 << 5u32) | v2,
    ensures
        v1 < 32,
        v2 < 32,
        (d1 >> 3u32) & 0xff == ((dbuf & 0x3f) << 2u32) | (ebuf & 3),
        (d2 >> 0u32) & 0xff == y,
{
}

proof fn lemma_bits_e3(buf: u32, ebuf: u32, y: u32, dbuf: u32, v1: u32, d1: u32, v2: u32, d2: u32) by (bit_vector)
    requires
        y < 256,
        buf == (ebuf << 8u32) | y,
        v1 == (buf >> 6u32) & 0x1f,
        d1 == (dbuf << 5u32) | v1,
        v2 == (buf >> 1u32) & 0x1f,
        d2 == (d1 << 5u32) | v2,
    ensures
        v1 < 32,
        v2 < 32,
        (d1 >> 2u32) & 0xff == ((dbuf & 0x1f) << 3u32) | (ebuf & 7),
        ((d2 & 0x7f) << 1u32) | (buf & 1) == y,
{
}

proof fn lemma_bits_e4(buf: u32, ebuf: u32, y: u32, dbuf: u32, v1: u32, d1: u32, v2: u32, d2: u32) by (bit_vector)
    requires
        y < 256,
        buf == (ebuf << 8u32) | y,
        v1 == (buf >> 7u32) & 0x1f,
        d1 == (dbuf << 5u32) | v1,
        v2 == (buf >> 2u32) & 0x1f,
        d2 == (d1 << 5u32) | v2,
    ensures
        v1 < 32,
        v2 < 32,
        (d1 >> 1u32) & 0xff == ((dbuf & 0xf) << 4u32) | (ebuf & 0xf),
        ((d2 & 0x3f) << 2u32) | (buf & 3) == y,
{
}

/// The character that flushes the encoder's last bits completes the byte.
proof fn lemma_bits_last(ebuf: u32, dbuf: u32, e: u32, s: u32, v: u32, d1: u32) by (bit_vector)
    requires
        1 <= e <= 4,
        s + e == 5,
        v == (ebuf << s) & 0x1f,
        d1 == (dbuf << 5u32) | v,
    ensures
        v < 32,
        e == 1 ==> (d1 >> 4u32) & 0xff == ((dbuf & 0x7f) << 1u32) | (ebuf & 1),
        e == 2 ==> (d1 >> 3u32) & 0xff == ((dbuf & 0x3f) << 2u32) | (ebuf & 3),
        e == 3 ==> (d1 >> 2u32) & 0xff == ((dbuf & 0x1f) << 3u32) | (ebuf & 7),
        e == 4 ==> (d1 >> 1u32) & 0xff == ((dbuf & 0xf) << 4u32) | (ebuf & 0xf),
{
}

proof fn lemma_b32_step(b: Seq<u8>, n: int)
    requires
        0 <= n < b.len(),
        b32_in_step(b, n),
    ensures
        b32_in_step(b, n + 1),
{
    let (out, ebuf, e) = b32_state(b.take(n));
    lemma_b32_state_bits_here(b.take(n));
    assert(b.take(n + 1).drop_last() =~= b.take(n));
    assert(b.take(n + 1).last() == b[n]);
    let y = b[n];
    let buf = ((ebuf << 8u32) | (y as u32)) as u32;
    let (bo, dbuf, d) = b32_dec_state(out)->Ok_0;
    assert(b32_state(b.take(n + 1)) == ({
        let (out2, bits2) = b32_emit(out, buf, (e + 8) as u32);
        (out2, buf, bits2)
    }));
    let v1 = ((buf >> ((e + 3) as u32)) & 0x1f) as u32;
    let c1 = alphabet(v1);
    let out1 = out.push(c1);
    assert(out1.drop_last() =~= out);
    assert(b32_emit(out, buf, (e + 8) as u32) == b32_emit(out1, buf, (e + 3) as u32));
    let d1 = ((dbuf << 5u32) | v1) as u32;
    if e == 0 {
        lemma_bits_e0(buf, ebuf, y as u32, dbuf, v1, d1);
        lemma_alphabet_round_trip(v1);
        assert(b32_emit(out1, buf, 3) == (out1, 3u32));
        assert(b32_dec_state(out1) == Ok::<(Seq<u8>, u32, u32), char>((bo, d1, 5)));
        assert(b.take(n + 1).take(n) =~= b.take(n));
        assert(b.take(n + 1 - 1) =~= b.take(n));
        assert(joined(d1, buf, 3) == y as u32);
    } else {
        if e == 1 {
            lemma_bits_e1(buf, ebuf, y as u32, dbuf, v1, d1);
            lemma_alphabet_round_trip(v1);
            assert(b32_emit(out1, buf, 4) == (out1, 4u32));
            let z = ((d1 >> 4u32) & 0xff) as u8;
            assert(b32_dec_state(out1) == Ok::<(Seq<u8>, u32, u32), char>((bo.push(z), d1, 4)));
            assert(z == b[n - 1]);
            assert(bo.push(z) =~= b.take(n));
            assert(b.take(n + 1 - 1) =~= b.take(n));
            assert(joined(d1, buf, 4) == y as u32);
        } else {
            let v2 = ((buf >> ((e - 2) as u32)) & 0x1f) as u32;
            let c2 = alphabet(v2);
            let out2 = out1.push(c2);
            assert(out2.drop_last() =~= out1);
            assert(b32_emit(out1, buf, (e + 3) as u32) == b32_emit(out2, buf, (e - 2) as u32));
            assert(b32_emit(out2, buf, (e - 2) as u32) == (out2, (e - 2) as u32));
            let d2 = ((d1 << 5u32) | v2) as u32;
            if e == 2 {
                lemma_bits_e2(buf, ebuf, y as u32, dbuf, v1, d1, v2, d2);
            } else if e == 3 {
                lemma_bits_e3(buf, ebuf, y as u32, dbuf, v1, d1, v2, d2);
            } else {
                lemma_bits_e4(buf, ebuf, y as u32, dbuf, v1, d1, v2, d2);
            }
            lemma_alphabet_round_trip(v1);
            lemma_alphabet_round_trip(v2);
            let z = ((d1 >> ((d - 3) as u32)) & 0xff) as u8;
            assert(b32_dec_state(out1) == Ok::<(Seq<u8>, u32, u32), char>((bo.push(z), d1, (d - 3) as u32)));
            assert(z == b[n - 1]);
            assert(bo.push(z) =~= b.take(n));
            if e == 2 {
                let z2 = ((d2 >> 0u32) & 0xff) as u8;
                assert(b32_dec_state(out2) == Ok::<(Seq<u8>, u32, u32), char>((b.take(n).push(z2), d2, 0)));
                assert(z2 == y);
                assert(b.take(n).push(z2) =~= b.take(n + 1));
            } else {
                assert(b32_dec_state(out2) == Ok::<(Seq<u8>, u32, u32), char>((b.take(n), d2, (d + 2) as u32)));
                assert(b.take(n + 1 - 1) =~= b.take(n));
                assert(joined(d2, buf, (e - 2) as u32) == y as u32);
            }
        }
    }
}

proof fn lemma_b32_state_bits_here(bytes: Seq<u8>)
    ensures
        b32_state(bytes).2 < 5,
{
    crate::riftbound::deck_code::lemma_b32_state_bits(bytes);
}

proof fn lemma_b32_upto(b: Seq<u8>, n: int)
    requires
        0 <= n <= b.len(),
    ensures
        b32_in_step(b, n),
    decreases n,
{
    if n == 0 {
        assert(b.take(0) =~= Seq::<u8>::empty());
        assert(b32_state(b.take(0)) == (Seq::<char>::empty(), 0u32, 0u32));
        assert(b32_dec_state(Seq::<char>::empty()) == Ok::<(Seq<u8>, u32, u32), char>((Seq::<u8>::empty(), 0u32, 0u32)));
    } else {
        lemma_b32_upto(b, n - 1);
        lemma_b32_step(b, n - 1);
    }
}

/// Base32 text reads back as the bytes it was written from.
pub proof fn lemma_base32_round_trip(b: Seq<u8>)
    ensures
        base32_bytes(base32(b)) == Ok::<Seq<u8>, char>(b),
        forall|i: int| 0 <= i < base32(b).len() ==> !is_ws(#[trigger] base32(b)[i]),
{
    lemma_b32_upto(b, b.len() as int);
    assert(b.take(b.len() as int) =~= b);
    let (out, ebuf, e) = b32_state(b);
    lemma_b32_state_bits_here(b);
    let (bo, dbuf, d) = b32_dec_state(out)->Ok_0;
    lemma_b32_chars(b);
    if e > 0 {
        let v = ((ebuf << ((5 - e) as u32)) & 0x1f) as u32;
        let d1 = ((dbuf << 5u32) | v) as u32;
        lemma_bits_last(ebuf, dbuf, e, (5 - e) as u32, v, d1);
        lemma_alphabet_round_trip(v);
        let full = out.push(alphabet(v));
        assert(full.drop_last() =~= out);
        let z = ((d1 >> ((d - 3) as u32)) & 0xff) as u8;
        assert(b32_dec_state(full) == Ok::<(Seq<u8>, u32, u32), char>((bo.push(z), d1, (d - 3) as u32)));
        assert(z == b[b.len() - 1]);
        assert(bo.push(z) =~= b);
        assert forall|i: int| 0 <= i < full.len() implies !is_ws(#[trigger] full[i]) by {
            if i < out.len() {
                assert(full[i] == out[i]);
            }
        }
    }
}

/// Every character the encoder writes is from the alphabet.
proof fn lemma_b32_chars(b: Seq<u8>)
    ensures
        forall|i: int| 0 <= i < b32_state(b).0.len() ==> !is_ws(#[trigger] b32_state(b).0[i]),
    decreases b.len(),
{
    if b.len() > 0 {
        lemma_b32_chars(b.drop_last());
        let (out, buffer, bits) = b32_state(b.drop_last());
        let buffer2 = ((buffer << 8u32) | (b.last() as u32)) as u32;
        lemma_b32_emit_chars(out, buffer2, (bits + 8) as u32);
    }
}

proof fn lemma_b32_emit_chars(out: Seq<char>, buffer: u32, bits: u32)
    requires
        forall|i: int| 0 <= i < out.len() ==> !is_ws(#[trigger] out[i]),
    ensures
        forall|i: int| 0 <= i < b32_emit(out, buffer, bits).0.len() ==> !is_ws(#[trigger] b32_emit(out, buffer, bits).0[i]),
    decreases bits,
{
    if bits >= 5 {
        let v = ((buffer >> ((bits - 5) as u32)) & 0x1f) as u32;
        assert(v < 32) by (bit_vector)
            requires
                v == ((buffer >> ((bits - 5) as u32)) & 0x1f),
        ;
        lemma_alphabet_round_trip(v);
        let out1 = out.push(alphabet(v));
        assert forall|i: int| 0 <= i < out1.len() implies !is_ws(#[trigger] out1[i]) by {
            if i < out.len() {
                assert(out1[i] == out[i]);
            }
        }
        lemma_b32_emit_chars(out1, buffer, (bits - 5) as u32);
        assert(b32_emit(out, buffer, bits) == b32_emit(out1, buffer, (bits - 5) as u32));
    }
}

/// Text with no white space at either end is its own trim.
pub proof fn lemma_trim_unspaced(s: Seq<char>)
    requires
        forall|i: int| 0 <= i < s.len() ==> !is_ws(#[trigger] s[i]),
    ensures
        trim(s) == s,
{
    if s.len() > 0 {
        assert(!is_ws(s[0]));
        assert(trim_start(s) == s);
        assert(!is_ws(s[s.len() - 1]));
        assert(s.last() == s[s.len() - 1]);
        assert(trim_end(s) == s);
    } else {
        assert(trim_start(s) == s);
        assert(trim_end(s) == s);
    }
}

// ---------------------------------------------------------------------------
// A whole code reads back
// ---------------------------------------------------------------------------

/// A chosen champion that reads back: its set has a wire byte and its
/// number is plain unless numbers are flagged.
pub open spec fn champion_ok(champion: Option<CardCode>, flagged: bool) -> bool {
    match champion {
        Some(c) => spec_wire(c.set) is Some && (flagged || c.number is Normal),
        None => true,
    }
}

pub proof fn lemma_read_champion(b: Seq<u8>, pos: int, champion: Option<CardCode>, flagged: bool)
    requires
        champion_ok(champion, flagged),
        at(b, pos, champion_bytes(champion, flagged)),
    ensures
        read_champion(b, pos, flagged) == Ok::<(Option<CardCode>, int), DecodeFault>(
            (champion, pos + champion_bytes(champion, flagged).len())),
{
    match champion {
        Some(c) => {
            let head = seq![1u8, set_byte(c.set), variant_wire(c.variant)];
            assert(champion_bytes(champion, flagged) == head + number_bytes(c.number, flagged));
            lemma_at_split(b, pos, head, number_bytes(c.number, flagged));
            assert(b.subrange(pos, pos + 3) == head);
            assert(b[pos] == head[0]);
            assert(b[pos + 1] == head[1]);
            assert(b[pos + 2] == head[2]);
            lemma_set_round_trip(c.set);
            lemma_variant_round_trip(c.variant);
            assert(read_set_variant(b, pos + 1) == Ok::<((SetCode, Variant), int), DecodeFault>(((c.set, c.variant), pos + 3)));
            lemma_read_number(b, pos + 3, c.number, flagged);
        },
        None => {
            lemma_at_first(b, pos, seq![0u8]);
        },
    }
}

/// The entries a section of a version `version` code lists for totals `t`.
pub open spec fn section_entries(version: u8, t: Totals, ceiling: u32) -> Seq<CodeEntry> {
    if version >= 5 {
        sparse_entries(t, counts_desc(t))
    } else {
        fixed_entries(t, ceiling)
    }
}

/// What the bytes of a version `version` code decode to.
pub open spec fn code_reading(version: u8, m: Totals, s: Totals, champion: Option<CardCode>) -> DeckSpec {
    (
        section_entries(version, m, MAIN_COUNT_CEILING),
        if version >= 2 { section_entries(version, s, SIDE_COUNT_CEILING) } else { Seq::empty() },
        if version >= 3 { champion } else { None },
    )
}

proof fn lemma_header(version: u8)
    requires
        1 <= version <= 5,
    ensures
        (((1u8 << 4u8) | version) as u8) >> 4u8 == 1,
        (((1u8 << 4u8) | version) as u8) & 0x0fu8 == version,
{
    assert((((1u8 << 4u8) | version) as u8) >> 4u8 == 1 && (((1u8 << 4u8) | version) as u8) & 0x0fu8 == version) by (bit_vector)
        requires
            1 <= version <= 5,
    ;
}

proof fn lemma_decode_sparse_body(b: Seq<u8>, version: u8, m: Totals, s: Totals, champion: Option<CardCode>, flagged: bool)
    requires
        version == 5,
        totals_ok(m, flagged),
        totals_ok(s, flagged),
        counts_desc(m).len() <= SECTION_LIMIT,
        counts_desc(s).len() <= SECTION_LIMIT,
        champion_ok(champion, flagged),
        at(b, 1, sections_bytes(version, m, s, flagged) + champion_bytes(champion, flagged)),
    ensures
        decode_body(b, version) == Ok::<DeckSpec, DecodeFault>((
            sparse_entries(m, counts_desc(m)),
            sparse_entries(s, counts_desc(s)),
            champion,
        )),
{
    let fb = seq![if flagged { 1u8 } else { 0u8 }];
    let ms = sparse_bytes(m, flagged);
    let ss = sparse_bytes(s, flagged);
    let cb = champion_bytes(champion, flagged);
    assert(sections_bytes(version, m, s, flagged) + cb =~= fb + (ms + (ss + cb)));
    lemma_at_split(b, 1, fb, ms + (ss + cb));
    lemma_at_split(b, 2, ms, ss + cb);
    lemma_at_split(b, 2 + ms.len() as int, ss, cb);
    lemma_at_first(b, 1, fb);
    lemma_read_sparse(b, 2, m, flagged);
    lemma_read_sparse(b, 2 + ms.len() as int, s, flagged);
    lemma_read_champion(b, 2 + ms.len() as int + ss.len() as int, champion, flagged);
}

proof fn lemma_decode_fixed_body(b: Seq<u8>, version: u8, m: Totals, s: Totals, champion: Option<CardCode>, flagged: bool)
    requires
        1 <= version <= 4,
        flagged == (version >= 4),
        totals_ok(m, flagged),
        totals_ok(s, flagged),
        version >= 3 ==> champion_ok(champion, flagged),
        at(b, 1, sections_bytes(version, m, s, flagged) + if version >= 3 {
            champion_bytes(champion, flagged)
        } else {
            Seq::empty()
        }),
    ensures
        decode_body(b, version) == Ok::<DeckSpec, DecodeFault>(code_reading(version, m, s, champion)),
{
    let ms = fixed_bytes(m, MAIN_COUNT_CEILING, flagged);
    let ss = if version >= 2 { fixed_bytes(s, SIDE_COUNT_CEILING, flagged) } else { Seq::empty() };
    let cb = if version >= 3 { champion_bytes(champion, flagged) } else { Seq::empty() };
    assert(sections_bytes(version, m, s, flagged) + cb =~= ms + (ss + cb));
    lemma_at_split(b, 1, ms, ss + cb);
    lemma_at_split(b, 1 + ms.len() as int, ss, cb);
    lemma_fixed_acc(b, 1, m, MAIN_COUNT_CEILING, flagged, Seq::empty());
    assert(Seq::<CodeEntry>::empty() + fixed_entries(m, MAIN_COUNT_CEILING) =~= fixed_entries(m, MAIN_COUNT_CEILING));
    if version >= 2 {
        lemma_fixed_acc(b, 1 + ms.len() as int, s, SIDE_COUNT_CEILING, flagged, Seq::empty());
        assert(Seq::<CodeEntry>::empty() + fixed_entries(s, SIDE_COUNT_CEILING) =~= fixed_entries(s, SIDE_COUNT_CEILING));
    }
    if version >= 3 {
        lemma_read_champion(b, 1 + ms.len() as int + ss.len() as int, champion, flagged);
    }
}

/// The bytes `code_bytes` writes decode to the entries of its sections.
pub proof fn lemma_decode_code_bytes(version: u8, m: Totals, s: Totals, champion: Option<CardCode>)
    requires
        1 <= version <= 5,
        totals_ok(m, deck_flagged(version, m, s, champion)),
        totals_ok(s, deck_flagged(version, m, s, champion)),
        version >= 5 ==> counts_desc(m).len() <= SECTION_LIMIT && counts_desc(s).len() <= SECTION_LIMIT,
        version >= 3 ==> champion_ok(champion, deck_flagged(version, m, s, champion)),
    ensures
        decode_bytes(code_bytes(version, m, s, champion)) == Ok::<DeckSpec, DecodeFault>(code_reading(version, m, s, champion)),
{
    let flagged = deck_flagged(version, m, s, champion);
    let b = code_bytes(version, m, s, champion);
    let header = ((crate::riftbound::deck_code::FORMAT << 4u8) | version) as u8;
    let secs = sections_bytes(version, m, s, flagged);
    let champ = if version >= 3 { champion_bytes(champion, flagged) } else { Seq::empty() };
    assert(b == seq![header] + secs + champ);
    assert(at(b, 0, b)) by {
        assert(b.subrange(0, b.len() as int) =~= b);
    }
    assert(b =~= seq![header] + (secs + champ));
    lemma_at_split(b, 0, seq![header], secs + champ);
    lemma_header(version);
    assert(b[0] == header);
    if version >= 5 {
        lemma_decode_sparse_body(b, version, m, s, champion, flagged);
    } else {
        lemma_decode_fixed_body(b, version, m, s, champion, flagged);
    }
}

// ---------------------------------------------------------------------------
// Copies read back
// ---------------------------------------------------------------------------

/// The copies totals hold for `x`, summed from the back.
pub open spec fn held_last(t: Totals, x: CardCode) -> nat
    decreases t.len(),
{
    if t.len() == 0 {
        0
    } else {
        held_last(t.drop_last(), x) + if t.last().0 == x { t.last().1 as nat } else { 0 }
    }
}

/// The copies of `x` the totals hold in entries of exactly `c` copies.
pub open spec fn held_at(t: Totals, x: CardCode, c: u32) -> nat
    decreases t.len(),
{
    if t.len() == 0 {
        0
    } else {
        held_at(t.drop_last(), x, c) + if t.last().0 == x && t.last().1 == c { c as nat } else { 0 }
    }
}

/// The copies of `x` the totals hold in entries of at most `c` copies.
pub open spec fn held_upto(t: Totals, x: CardCode, c: u32) -> nat
    decreases t.len(),
{
    if t.len() == 0 {
        0
    } else {
        held_upto(t.drop_last(), x, c) + if t.last().0 == x && t.last().1 <= c { t.last().1 as nat } else { 0 }
    }
}

/// The copies of `x` the totals hold in entries whose count is listed.
pub open spec fn held_in(t: Totals, x: CardCode, counts: Seq<u32>) -> nat
    decreases t.len(),
{
    if t.len() == 0 {
        0
    } else {
        held_in(t.drop_last(), x, counts) + if t.last().0 == x && counts.contains(t.last().1) {
            t.last().1 as nat
        } else {
            0
        }
    }
}

pub proof fn lemma_held_last(t: Totals, x: CardCode)
    ensures
        held(t, x) == held_last(t, x),
    decreases t.len(),
{
    if t.len() > 1 {
        let df = t.drop_first();
        let dl = t.drop_last();
        lemma_held_last(df, x);
        lemma_held_last(dl, x);
        lemma_held_last(dl.drop_first(), x);
        assert(df.drop_last() =~= dl.drop_first());
        assert(df.last() == t.last());
        assert(dl[0] == t[0]);
        let first: nat = if t[0].0 == x { t[0].1 as nat } else { 0 };
        let last: nat = if t.last().0 == x { t.last().1 as nat } else { 0 };
        assert(held(t, x) == first + held(df, x));
        assert(held_last(df, x) == held_last(df.drop_last(), x) + last);
        assert(held(dl, x) == first + held(dl.drop_first(), x));
        assert(held_last(t, x) == held_last(dl, x) + last);
    } else if t.len() == 1 {
        assert(held(t.drop_first(), x) == 0);
        assert(held_last(t.drop_last(), x) == 0);
        assert(t.last() == t[0]);
    }
}

pub proof fn lemma_copies_concat(a: Seq<CodeEntry>, b: Seq<CodeEntry>, x: CardCode)
    ensures
        copies_of(a + b, x) == copies_of(a, x) + copies_of(b, x),
    decreases b.len(),
{
    if b.len() == 0 {
        assert(a + b =~= a);
    } else {
        lemma_copies_concat(a, b.drop_last(), x);
        assert((a + b).drop_last() =~= a + b.drop_last());
        assert((a + b).last() == b.last());
    }
}

proof fn lemma_copies_push(a: Seq<CodeEntry>, e: CodeEntry, x: CardCode)
    ensures
        copies_of(a.push(e), x) == copies_of(a, x) + if e.code == x { e.count as nat } else { 0 },
{
    assert(a.push(e).drop_last() =~= a);
}

proof fn lemma_copies_numbers(t: Totals, set: SetCode, variant: Variant, c: u32, x: CardCode)
    ensures
        copies_of(number_entries(numbers_in(t, set, variant, c), set, variant, c), x) == if x.set == set
            && x.variant == variant {
            held_at(t, x, c)
        } else {
            0
        },
    decreases t.len(),
{
    if t.len() == 0 {
        assert(number_entries(numbers_in(t, set, variant, c), set, variant, c) =~= Seq::<CodeEntry>::empty());
    } else {
        lemma_copies_numbers(t.drop_last(), set, variant, c, x);
        let rest = numbers_in(t.drop_last(), set, variant, c);
        let (code, total) = t.last();
        if code.set == set && code.variant == variant && total == c {
            let e = CodeEntry { code: CardCode { set, number: code.number, variant }, count: c };
            assert(number_entries(rest.push(code.number), set, variant, c) =~= number_entries(rest, set, variant, c).push(e));
            lemma_copies_push(number_entries(rest, set, variant, c), e, x);
            assert(e.code == code);
        }
    }
}

pub open spec fn set_index(s: SetCode) -> int {
    match s {
        SetCode::Ogn => 0,
        SetCode::Ogs => 1,
        SetCode::Arc => 2,
        SetCode::Sfd => 3,
        SetCode::Unl => 4,
        SetCode::Ven => 5,
        SetCode::Rad => 6,
        SetCode::Opp => 7,
        SetCode::Pr => 8,
        SetCode::Jdg => 9,
    }
}

pub open spec fn variant_index(v: Variant) -> int {
    match v {
        Variant::Base => 0,
        Variant::Alternate => 1,
        Variant::Signed => 2,
        Variant::B => 3,
    }
}

/// Where the groups of a card's set and variant stand among the forty.
pub open spec fn group_index(x: CardCode) -> int {
    set_index(x.set) * 4 + variant_index(x.variant)
}

proof fn lemma_group_index(x: CardCode, k: int)
    requires
        0 <= k < 40,
    ensures
        (set_at(k / 4) == x.set && variant_at(k % 4) == x.variant) <==> k == group_index(x),
        0 <= group_index(x) < 40,
{
}

proof fn lemma_copies_groups(t: Totals, c: u32, k: int, x: CardCode)
    requires
        0 <= k <= 40,
    ensures
        copies_of(group_entries(groups_from(t, c, k), c), x) == if k <= group_index(x) {
            held_at(t, x, c)
        } else {
            0
        },
    decreases 40 - k,
{
    lemma_group_index(x, 0);
    if k == 40 {
        assert(group_entries(groups_from(t, c, k), c) =~= Seq::<CodeEntry>::empty());
    } else {
        lemma_copies_groups(t, c, k + 1, x);
        lemma_group_index(x, k);
        let set = set_at(k / 4);
        let variant = variant_at(k % 4);
        let nums = numbers_in(t, set, variant, c);
        let rest = groups_from(t, c, k + 1);
        lemma_copies_numbers(t, set, variant, c, x);
        let mine = number_entries(nums, set, variant, c);
        if nums.len() > 0 {
            let all = seq![((set, variant), nums)] + rest;
            assert(groups_from(t, c, k) == all);
            assert(all[0] == ((set, variant), nums));
            assert(all.drop_first() =~= rest);
            assert(group_entries(all, c) == mine + group_entries(rest, c));
            lemma_copies_concat(mine, group_entries(rest, c), x);
        } else {
            assert(groups_from(t, c, k) =~= rest);
            assert(mine =~= Seq::<CodeEntry>::empty());
        }
    }
}

pub proof fn lemma_copies_group_list(t: Totals, c: u32, x: CardCode)
    ensures
        copies_of(group_entries(groups_for(t, c), c), x) == held_at(t, x, c),
{
    lemma_group_index(x, 0);
    lemma_copies_groups(t, c, 0, x);
}

proof fn lemma_held_upto_split(t: Totals, x: CardCode, c: u32)
    requires
        c >= 1,
    ensures
        held_upto(t, x, c) == held_at(t, x, c) + held_upto(t, x, (c - 1) as u32),
    decreases t.len(),
{
    if t.len() > 0 {
        lemma_held_upto_split(t.drop_last(), x, c);
    }
}

proof fn lemma_held_upto_zero(t: Totals, x: CardCode)
    ensures
        held_upto(t, x, 0) == 0,
    decreases t.len(),
{
    if t.len() > 0 {
        lemma_held_upto_zero(t.drop_last(), x);
    }
}

pub proof fn lemma_copies_fixed(t: Totals, c: u32, x: CardCode)
    ensures
        copies_of(fixed_entries(t, c), x) == held_upto(t, x, c),
    decreases c,
{
    if c == 0 {
        lemma_held_upto_zero(t, x);
        assert(fixed_entries(t, c) =~= Seq::<CodeEntry>::empty());
    } else {
        lemma_copies_fixed(t, (c - 1) as u32, x);
        lemma_copies_group_list(t, c, x);
        lemma_copies_concat(group_entries(groups_for(t, c), c), fixed_entries(t, (c - 1) as u32), x);
        lemma_held_upto_split(t, x, c);
    }
}

pub proof fn lemma_held_upto_all(t: Totals, x: CardCode, c: u32)
    requires
        forall|i: int| 0 <= i < t.len() ==> (#[trigger] t[i]).1 <= c,
    ensures
        held_upto(t, x, c) == held_last(t, x),
    decreases t.len(),
{
    if t.len() > 0 {
        assert forall|i: int| 0 <= i < t.drop_last().len() implies (#[trigger] t.drop_last()[i]).1 <= c by {
            assert(t.drop_last()[i] == t[i]);
        }
        lemma_held_upto_all(t.drop_last(), x, c);
        assert(t[t.len() - 1].1 <= c);
    }
}

/// Strictly descending: each count larger than every later one.
pub open spec fn descending(s: Seq<u32>) -> bool {
    forall|i: int, j: int| 0 <= i < j < s.len() ==> s[i] > s[j]
}

proof fn lemma_held_in_split(t: Totals, x: CardCode, counts: Seq<u32>)
    requires
        counts.len() > 0,
        !counts.drop_first().contains(counts[0]),
    ensures
        held_in(t, x, counts) == held_at(t, x, counts[0]) + held_in(t, x, counts.drop_first()),
    decreases t.len(),
{
    if t.len() > 0 {
        lemma_held_in_split(t.drop_last(), x, counts);
        let v = t.last().1;
        if counts.contains(v) && v != counts[0] {
            let j = choose|j: int| 0 <= j < counts.len() && counts[j] == v;
            assert(j != 0);
            assert(counts.drop_first()[j - 1] == v);
        }
        if counts.drop_first().contains(v) {
            let j = choose|j: int| 0 <= j < counts.drop_first().len() && counts.drop_first()[j] == v;
            assert(counts[j + 1] == v);
        }
        if v == counts[0] {
            assert(counts.contains(v));
        }
    }
}

pub proof fn lemma_copies_sparse(t: Totals, counts: Seq<u32>, x: CardCode)
    requires
        descending(counts),
    ensures
        copies_of(sparse_entries(t, counts), x) == held_in(t, x, counts),
    decreases counts.len(),
{
    if counts.len() == 0 {
        lemma_held_in_empty(t, x, counts);
        assert(sparse_entries(t, counts) =~= Seq::<CodeEntry>::empty());
    } else {
        let rest = counts.drop_first();
        assert(descending(rest)) by {
            assert forall|i: int, j: int| 0 <= i < j < rest.len() implies rest[i] > rest[j] by {
                assert(rest[i] == counts[i + 1]);
                assert(rest[j] == counts[j + 1]);
            }
        }
        assert(!rest.contains(counts[0])) by {
            if rest.contains(counts[0]) {
                let j = choose|j: int| 0 <= j < rest.len() && rest[j] == counts[0];
                assert(counts[j + 1] == counts[0]);
            }
        }
        lemma_copies_sparse(t, rest, x);
        lemma_copies_group_list(t, counts[0], x);
        lemma_copies_concat(group_entries(groups_for(t, counts[0]), counts[0]), sparse_entries(t, rest), x);
        lemma_held_in_split(t, x, counts);
    }
}

proof fn lemma_held_in_empty(t: Totals, x: CardCode, counts: Seq<u32>)
    requires
        counts.len() == 0,
    ensures
        held_in(t, x, counts) == 0,
    decreases t.len(),
{
    if t.len() > 0 {
        lemma_held_in_empty(t.drop_last(), x, counts);
    }
}

pub proof fn lemma_held_in_all(t: Totals, x: CardCode, counts: Seq<u32>)
    requires
        forall|i: int| 0 <= i < t.len() ==> counts.contains((#[trigger] t[i]).1),
    ensures
        held_in(t, x, counts) == held_last(t, x),
    decreases t.len(),
{
    if t.len() > 0 {
        assert forall|i: int| 0 <= i < t.drop_last().len() implies counts.contains((#[trigger] t.drop_last()[i]).1) by {
            assert(t.drop_last()[i] == t[i]);
        }
        lemma_held_in_all(t.drop_last(), x, counts);
        assert(counts.contains(t[t.len() - 1].1));
    }
}

proof fn lemma_insert_desc(s: Seq<u32>, x: u32)
    requires
        descending(s),
    ensures
        descending(insert_desc(s, x)),
        forall|y: u32| #[trigger] insert_desc(s, x).contains(y) <==> (s.contains(y) || y == x),
        insert_desc(s, x).len() <= s.len() + 1,
    decreases s.len(),
{
    let r = insert_desc(s, x);
    if s.len() == 0 {
        assert forall|y: u32| r.contains(y) <==> (s.contains(y) || y == x) by {
            if r.contains(y) {
                assert(r[0] == y);
            }
            if y == x {
                assert(r[0] == x);
            }
        }
    } else if s[0] == x {
        assert forall|y: u32| r.contains(y) <==> (s.contains(y) || y == x) by {
            if y == x {
                assert(s[0] == y);
            }
        }
    } else if x > s[0] {
        assert(r == seq![x] + s);
        assert forall|i: int, j: int| 0 <= i < j < r.len() implies r[i] > r[j] by {
            if i == 0 {
                assert(r[j] == s[j - 1]);
                assert(s[0] >= s[j - 1]);
            } else {
                assert(r[i] == s[i - 1]);
                assert(r[j] == s[j - 1]);
            }
        }
        assert forall|y: u32| r.contains(y) <==> (s.contains(y) || y == x) by {
            if r.contains(y) {
                let j = choose|j: int| 0 <= j < r.len() && r[j] == y;
                if j > 0 {
                    assert(s[j - 1] == y);
                }
            }
            if s.contains(y) {
                let j = choose|j: int| 0 <= j < s.len() && s[j] == y;
                assert(r[j + 1] == y);
            }
            if y == x {
                assert(r[0] == y);
            }
        }
    } else {
        let tail = s.drop_first();
        assert(descending(tail)) by {
            assert forall|i: int, j: int| 0 <= i < j < tail.len() implies tail[i] > tail[j] by {
                assert(tail[i] == s[i + 1]);
                assert(tail[j] == s[j + 1]);
            }
        }
        lemma_insert_desc(tail, x);
        let rt = insert_desc(tail, x);
        assert(r == seq![s[0]] + rt);
        assert forall|i: int, j: int| 0 <= i < j < r.len() implies r[i] > r[j] by {
            if i == 0 {
                assert(r[j] == rt[j - 1]);
                assert(rt.contains(rt[j - 1]));
                if tail.contains(rt[j - 1]) {
                    let k = choose|k: int| 0 <= k < tail.len() && tail[k] == rt[j - 1];
                    assert(s[k + 1] == rt[j - 1]);
                }
            } else {
                assert(r[i] == rt[i - 1]);
                assert(r[j] == rt[j - 1]);
            }
        }
        assert forall|y: u32| r.contains(y) <==> (s.contains(y) || y == x) by {
            if r.contains(y) {
                let j = choose|j: int| 0 <= j < r.len() && r[j] == y;
                if j > 0 {
                    assert(rt[j - 1] == y);
                    assert(rt.contains(y));
                    if tail.contains(y) {
                        let k = choose|k: int| 0 <= k < tail.len() && tail[k] == y;
                        assert(s[k + 1] == y);
                    }
                } else {
                    assert(s[0] == y);
                }
            }
            if s.contains(y) {
                let j = choose|j: int| 0 <= j < s.len() && s[j] == y;
                if j == 0 {
                    assert(r[0] == y);
                } else {
                    assert(tail[j - 1] == y);
                    assert(rt.contains(y));
                    let k = choose|k: int| 0 <= k < rt.len() && rt[k] == y;
                    assert(r[k + 1] == y);
                }
            }
            if y == x {
                assert(rt.contains(y));
                let k = choose|k: int| 0 <= k < rt.len() && rt[k] == y;
                assert(r[k + 1] == y);
            }
        }
    }
}

/// The distinct counts come largest first and list every total's count.
pub proof fn lemma_counts_desc(t: Totals)
    ensures
        descending(counts_desc(t)),
        forall|i: int| 0 <= i < t.len() ==> counts_desc(t).contains((#[trigger] t[i]).1),
        counts_desc(t).len() <= t.len(),
    decreases t.len(),
{
    if t.len() > 0 {
        lemma_counts_desc(t.drop_last());
        let pre = counts_desc(t.drop_last());
        lemma_insert_desc(pre, t.last().1);
        assert forall|i: int| 0 <= i < t.len() implies counts_desc(t).contains((#[trigger] t[i]).1) by {
            if i < t.len() - 1 {
                assert(t.drop_last()[i] == t[i]);
                assert(pre.contains(t[i].1));
            }
        }
    }
}

// ---------------------------------------------------------------------------
// The law: a deck code reads back as its deck
// ---------------------------------------------------------------------------

/// Every card of the totals is of a set with a wire byte.
pub open spec fn wire_totals(t: Totals) -> bool {
    forall|i: int| 0 <= i < t.len() ==> spec_wire((#[trigger] t[i]).0.set) is Some
}

/// Every entry names a card of a set with a wire byte.
pub open spec fn wire_entries(e: Seq<CodeEntry>) -> bool {
    forall|i: int| 0 <= i < e.len() ==> spec_wire((#[trigger] e[i]).code.set) is Some
}

/// No chosen champion, or one of a set with a wire byte.
pub open spec fn wire_champion(c: Option<CardCode>) -> bool {
    match c {
        Some(code) => spec_wire(code.set) is Some,
        None => true,
    }
}

/// Totals whose sections a code can announce: no group of more than
/// `SECTION_LIMIT` cards and no more than `SECTION_LIMIT` distinct counts.
pub open spec fn code_fits(t: Totals) -> bool {
    &&& counts_desc(t).len() <= SECTION_LIMIT
    &&& forall|set: SetCode, variant: Variant, c: u32|
        #[trigger] numbers_in(t, set, variant, c).len() <= SECTION_LIMIT
}

proof fn lemma_add_copies_wire(t: Totals, code: CardCode, count: u32)
    requires
        wire_totals(t),
        spec_wire(code.set) is Some,
    ensures
        wire_totals(add_copies(t, code, count)),
    decreases t.len(),
{
    let r = add_copies(t, code, count);
    if t.len() == 0 {
        assert(r[0] == (code, count));
    } else if t[0].0 == code {
        assert forall|i: int| 0 <= i < r.len() implies spec_wire((#[trigger] r[i]).0.set) is Some by {
            if i > 0 {
                assert(r[i] == t[i]);
            }
        }
    } else if crate::riftbound::deck_code::code_key(code) < crate::riftbound::deck_code::code_key(t[0].0) {
        assert forall|i: int| 0 <= i < r.len() implies spec_wire((#[trigger] r[i]).0.set) is Some by {
            if i > 0 {
                assert(r[i] == t[i - 1]);
            }
        }
    } else {
        let tail = t.drop_first();
        assert(wire_totals(tail)) by {
            assert forall|i: int| 0 <= i < tail.len() implies spec_wire((#[trigger] tail[i]).0.set) is Some by {
                assert(tail[i] == t[i + 1]);
            }
        }
        lemma_add_copies_wire(tail, code, count);
        let rt = add_copies(tail, code, count);
        assert forall|i: int| 0 <= i < r.len() implies spec_wire((#[trigger] r[i]).0.set) is Some by {
            if i > 0 {
                assert(r[i] == rt[i - 1]);
            }
        }
    }
}

pub proof fn lemma_aggregate_wire(e: Seq<CodeEntry>)
    requires
        aggregate_spec(e) is Ok,
        wire_entries(e),
    ensures
        wire_totals(aggregate_spec(e)->Ok_0),
    decreases e.len(),
{
    if e.len() > 0 {
        let pre = e.drop_last();
        assert(wire_entries(pre)) by {
            assert forall|i: int| 0 <= i < pre.len() implies spec_wire((#[trigger] pre[i]).code.set) is Some by {
                assert(pre[i] == e[i]);
            }
        }
        lemma_aggregate_wire(pre);
        assert(e.last() == e[e.len() - 1]);
        lemma_add_copies_wire(aggregate_spec(pre)->Ok_0, e.last().code, e.last().count);
    }
}

/// The copies a section reads back with are the copies the totals hold.
proof fn lemma_section_copies(version: u8, t: Totals, ceiling: u32, x: CardCode)
    requires
        version < 5 ==> !any_over(t, ceiling),
    ensures
        copies_of(section_entries(version, t, ceiling), x) == held(t, x),
{
    lemma_held_last(t, x);
    if version >= 5 {
        lemma_counts_desc(t);
        lemma_copies_sparse(t, counts_desc(t), x);
        lemma_held_in_all(t, x, counts_desc(t));
    } else {
        assert forall|i: int| 0 <= i < t.len() implies (#[trigger] t[i]).1 <= ceiling by {
            if t[i].1 > ceiling {
                assert(any_over(t, ceiling));
            }
        }
        lemma_copies_fixed(t, ceiling, x);
        lemma_held_upto_all(t, x, ceiling);
    }
}

proof fn lemma_totals_ok(t: Totals, flagged: bool)
    requires
        wire_totals(t),
        code_fits(t),
        flagged || !crate::riftbound::deck_code::any_prefixed(t),
    ensures
        totals_ok(t, flagged),
{
    if !flagged {
        lemma_normal_when_unprefixed(t);
    }
}

/// A deck written as a version `version` code reads back as the same deck:
/// every card with as many copies in the main deck and in the sideboard as
/// the deck's entries ask for, and the same chosen champion.
pub proof fn lemma_code_reads_back(version: u8, d: DeckSpec)
    requires
        encode_as_spec(version, d) is Ok,
        counts_fit(d.0),
        counts_fit(d.1),
        wire_entries(d.0),
        wire_entries(d.1),
        wire_champion(d.2),
        code_fits(aggregate_spec(d.0)->Ok_0),
        code_fits(aggregate_spec(d.1)->Ok_0),
    ensures
        decode_text(base32(encode_as_spec(version, d)->Ok_0)) matches Ok(r) && r.2 == d.2
            && (forall|x: CardCode| copies_of(r.0, x) == copies_of(d.0, x))
            && (forall|x: CardCode| copies_of(r.1, x) == copies_of(d.1, x)),
{
    let m = aggregate_spec(d.0)->Ok_0;
    let s = aggregate_spec(d.1)->Ok_0;
    let champion = d.2;
    let flagged = deck_flagged(version, m, s, champion);
    let bytes = code_bytes(version, m, s, champion);
    assert(encode_as_spec(version, d)->Ok_0 == bytes);
    lemma_base32_round_trip(bytes);
    lemma_trim_unspaced(base32(bytes));
    lemma_aggregate_wire(d.0);
    lemma_aggregate_wire(d.1);
    lemma_totals_ok(m, flagged);
    lemma_totals_ok(s, flagged);
    lemma_decode_code_bytes(version, m, s, champion);
    let r = code_reading(version, m, s, champion);
    assert(decode_text(base32(bytes)) == Ok::<DeckSpec, DecodeFault>(r));
    assert forall|x: CardCode| copies_of(r.0, x) == copies_of(d.0, x) by {
        lemma_section_copies(version, m, MAIN_COUNT_CEILING, x);
        lemma_aggregate_held(d.0, x);
    }
    assert forall|x: CardCode| copies_of(r.1, x) == copies_of(d.1, x) by {
        lemma_aggregate_held(d.1, x);
        if version >= 2 {
            lemma_section_copies(version, s, SIDE_COUNT_CEILING, x);
        } else {
            assert(s.len() == 0);
            assert(held(s, x) == 0);
            assert(r.1 =~= Seq::<CodeEntry>::empty());
        }
    }
}

/// A deck written by `encode` reads back as the same deck.
pub proof fn lemma_auto_code_reads_back(d: DeckSpec)
    requires
        encode_spec(d) is Ok,
        counts_fit(d.0),
        counts_fit(d.1),
        wire_entries(d.0),
        wire_entries(d.1),
        wire_champion(d.2),
        code_fits(aggregate_spec(d.0)->Ok_0),
        code_fits(aggregate_spec(d.1)->Ok_0),
    ensures
        decode_text(base32(encode_spec(d)->Ok_0)) matches Ok(r) && r.2 == d.2
            && (forall|x: CardCode| copies_of(r.0, x) == copies_of(d.0, x))
            && (forall|x: CardCode| copies_of(r.1, x) == copies_of(d.1, x)),
{
    let v = auto_version(aggregate_spec(d.0)->Ok_0, aggregate_spec(d.1)->Ok_0, d.2);
    lemma_code_reads_back(v, d);
}

// ---------------------------------------------------------------------------
// The law: a code read back writes the same code again
// ---------------------------------------------------------------------------

/// Totals in strictly ascending code order.
pub open spec fn ascending(t: Totals) -> bool {
    forall|i: int, j: int| 0 <= i < j < t.len() ==> code_key((#[trigger] t[i]).0) < code_key((#[trigger] t[j]).0)
}

/// Totals that each hold at least one copy.
pub open spec fn positive(t: Totals) -> bool {
    forall|i: int| 0 <= i < t.len() ==> (#[trigger] t[i]).1 >= 1
}

/// Every key of the totals lies above `lo`.
pub open spec fn keys_above(t: Totals, lo: int) -> bool {
    forall|i: int| 0 <= i < t.len() ==> code_key((#[trigger] t[i]).0) > lo
}

proof fn lemma_code_key_injective(a: CardCode, b: CardCode)
    ensures
        code_key(a) == code_key(b) ==> a == b,
{
}

proof fn lemma_add_copies_shape(t: Totals, code: CardCode, count: u32, lo: int)
    requires
        ascending(t),
        positive(t),
        count >= 1,
        held(t, code) + count <= u32::MAX,
    ensures
        ascending(add_copies(t, code, count)),
        positive(add_copies(t, code, count)),
        keys_above(t, lo) && code_key(code) > lo ==> keys_above(add_copies(t, code, count), lo),
    decreases t.len(),
{
    let r = add_copies(t, code, count);
    if t.len() == 0 {
        assert(r.len() == 1);
    } else if t[0].0 == code {
        lemma_held_ge(t, 0, code);
        assert forall|i: int| 0 <= i < r.len() implies (#[trigger] r[i]).1 >= 1 by {
            if i > 0 {
                assert(r[i] == t[i]);
            }
        }
        assert forall|i: int, j: int| 0 <= i < j < r.len() implies code_key((#[trigger] r[i]).0) < code_key((#[trigger] r[j]).0) by {
            assert(r[j] == t[j]);
            if i > 0 {
                assert(r[i] == t[i]);
            }
        }
        if keys_above(t, lo) && code_key(code) > lo {
            assert forall|i: int| 0 <= i < r.len() implies code_key((#[trigger] r[i]).0) > lo by {
                if i > 0 {
                    assert(r[i] == t[i]);
                }
            }
        }
    } else if code_key(code) < code_key(t[0].0) {
        assert forall|i: int| 0 <= i < r.len() implies (#[trigger] r[i]).1 >= 1 by {
            if i > 0 {
                assert(r[i] == t[i - 1]);
            }
        }
        assert forall|i: int, j: int| 0 <= i < j < r.len() implies code_key((#[trigger] r[i]).0) < code_key((#[trigger] r[j]).0) by {
            assert(r[j] == t[j - 1]);
            if i > 0 {
                assert(r[i] == t[i - 1]);
            } else if j - 1 > 0 {
                assert(code_key(t[0].0) < code_key(t[j - 1].0));
            }
        }
        if keys_above(t, lo) && code_key(code) > lo {
            assert forall|i: int| 0 <= i < r.len() implies code_key((#[trigger] r[i]).0) > lo by {
                if i > 0 {
                    assert(r[i] == t[i - 1]);
                }
            }
        }
    } else {
        let tail = t.drop_first();
        lemma_code_key_injective(code, t[0].0);
        assert(ascending(tail)) by {
            assert forall|i: int, j: int| 0 <= i < j < tail.len() implies code_key((#[trigger] tail[i]).0) < code_key((#[trigger] tail[j]).0) by {
                assert(tail[i] == t[i + 1]);
                assert(tail[j] == t[j + 1]);
            }
        }
        assert(positive(tail)) by {
            assert forall|i: int| 0 <= i < tail.len() implies (#[trigger] tail[i]).1 >= 1 by {
                assert(tail[i] == t[i + 1]);
            }
        }
        assert(keys_above(tail, code_key(t[0].0))) by {
            assert forall|i: int| 0 <= i < tail.len() implies code_key((#[trigger] tail[i]).0) > code_key(t[0].0) by {
                assert(tail[i] == t[i + 1]);
            }
        }
        lemma_add_copies_shape(tail, code, count, code_key(t[0].0));
        if keys_above(t, lo) && code_key(code) > lo {
            assert(keys_above(tail, lo)) by {
                assert forall|i: int| 0 <= i < tail.len() implies code_key((#[trigger] tail[i]).0) > lo by {
                    assert(tail[i] == t[i + 1]);
                }
            }
            lemma_add_copies_shape(tail, code, count, lo);
        }
        let rt = add_copies(tail, code, count);
        assert(r == seq![t[0]] + rt);
        assert forall|i: int| 0 <= i < r.len() implies (#[trigger] r[i]).1 >= 1 by {
            if i > 0 {
                assert(r[i] == rt[i - 1]);
            }
        }
        assert forall|i: int, j: int| 0 <= i < j < r.len() implies code_key((#[trigger] r[i]).0) < code_key((#[trigger] r[j]).0) by {
            assert(r[j] == rt[j - 1]);
            if i > 0 {
                assert(r[i] == rt[i - 1]);
            }
        }
        if keys_above(t, lo) && code_key(code) > lo {
            assert forall|i: int| 0 <= i < r.len() implies code_key((#[trigger] r[i]).0) > lo by {
                if i > 0 {
                    assert(r[i] == rt[i - 1]);
                }
            }
        }
    }
}

/// Aggregated totals come in ascending code order, each with a copy.
pub proof fn lemma_aggregate_shape(e: Seq<CodeEntry>)
    requires
        aggregate_spec(e) is Ok,
        counts_fit(e),
    ensures
        ascending(aggregate_spec(e)->Ok_0),
        positive(aggregate_spec(e)->Ok_0),
    decreases e.len(),
{
    if e.len() > 0 {
        let pre = e.drop_last();
        let last = e.last();
        assert forall|x: CardCode| copies_of(pre, x) <= u32::MAX by {
            assert(copies_of(e, x) >= copies_of(pre, x));
        }
        lemma_aggregate_shape(pre);
        lemma_aggregate_held(pre, last.code);
        assert(copies_of(e, last.code) == copies_of(pre, last.code) + last.count);
        lemma_add_copies_shape(aggregate_spec(pre)->Ok_0, last.code, last.count, 0);
    }
}

proof fn lemma_held_absent(t: Totals, x: CardCode)
    requires
        forall|i: int| 0 <= i < t.len() ==> (#[trigger] t[i]).0 != x,
    ensures
        held(t, x) == 0,
    decreases t.len(),
{
    if t.len() > 0 {
        assert forall|i: int| 0 <= i < t.drop_first().len() implies (#[trigger] t.drop_first()[i]).0 != x by {
            assert(t.drop_first()[i] == t[i + 1]);
        }
        lemma_held_absent(t.drop_first(), x);
        assert(t[0].0 != x);
    }
}

/// Ascending totals with a copy each are fixed by the copies they hold.
pub proof fn lemma_totals_determined(t: Totals, u: Totals)
    requires
        ascending(t),
        ascending(u),
        positive(t),
        positive(u),
        forall|x: CardCode| held(t, x) == held(u, x),
    ensures
        t == u,
    decreases t.len() + u.len(),
{
    if t.len() == 0 {
        if u.len() > 0 {
            lemma_held_ge(u, 0, u[0].0);
            assert(held(t, u[0].0) == 0);
            assert(false);
        }
        assert(t =~= u);
    } else if u.len() == 0 {
        lemma_held_ge(t, 0, t[0].0);
        assert(held(u, t[0].0) == 0);
        assert(false);
    } else {
        let a = t[0].0;
        let b = u[0].0;
        lemma_held_ge(t, 0, a);
        lemma_held_ge(u, 0, b);
        if code_key(a) < code_key(b) {
            assert forall|i: int| 0 <= i < u.len() implies (#[trigger] u[i]).0 != a by {
                if i > 0 {
                    assert(code_key(u[0].0) < code_key(u[i].0));
                }
            }
            lemma_held_absent(u, a);
            assert(held(t, a) == held(u, a));
            assert(false);
        }
        if code_key(b) < code_key(a) {
            assert forall|i: int| 0 <= i < t.len() implies (#[trigger] t[i]).0 != b by {
                if i > 0 {
                    assert(code_key(t[0].0) < code_key(t[i].0));
                }
            }
            lemma_held_absent(t, b);
            assert(held(t, b) == held(u, b));
            assert(false);
        }
        lemma_code_key_injective(a, b);
        assert(a == b);
        let tt = t.drop_first();
        let ut = u.drop_first();
        assert forall|i: int| 0 <= i < tt.len() implies (#[trigger] tt[i]).0 != a by {
            assert(tt[i] == t[i + 1]);
            assert(code_key(t[0].0) < code_key(t[i + 1].0));
        }
        assert forall|i: int| 0 <= i < ut.len() implies (#[trigger] ut[i]).0 != a by {
            assert(ut[i] == u[i + 1]);
            assert(code_key(u[0].0) < code_key(u[i + 1].0));
        }
        lemma_held_absent(tt, a);
        lemma_held_absent(ut, a);
        assert(held(t, a) == t[0].1 + held(tt, a));
        assert(held(u, a) == u[0].1 + held(ut, a));
        assert(t[0].1 == u[0].1);
        assert(ascending(tt)) by {
            assert forall|i: int, j: int| 0 <= i < j < tt.len() implies code_key((#[trigger] tt[i]).0) < code_key((#[trigger] tt[j]).0) by {
                assert(tt[i] == t[i + 1]);
                assert(tt[j] == t[j + 1]);
            }
        }
        assert(ascending(ut)) by {
            assert forall|i: int, j: int| 0 <= i < j < ut.len() implies code_key((#[trigger] ut[i]).0) < code_key((#[trigger] ut[j]).0) by {
                assert(ut[i] == u[i + 1]);
                assert(ut[j] == u[j + 1]);
            }
        }
        assert(positive(tt)) by {
            assert forall|i: int| 0 <= i < tt.len() implies (#[trigger] tt[i]).1 >= 1 by {
                assert(tt[i] == t[i + 1]);
            }
        }
        assert(positive(ut)) by {
            assert forall|i: int| 0 <= i < ut.len() implies (#[trigger] ut[i]).1 >= 1 by {
                assert(ut[i] == u[i + 1]);
            }
        }
        assert forall|x: CardCode| held(tt, x) == held(ut, x) by {
            assert(held(t, x) == (if t[0].0 == x { t[0].1 as nat } else { 0 }) + held(tt, x));
            assert(held(u, x) == (if u[0].0 == x { u[0].1 as nat } else { 0 }) + held(ut, x));
        }
        lemma_totals_determined(tt, ut);
        assert(t =~= seq![t[0]] + tt);
        assert(u =~= seq![u[0]] + ut);
    }
}

/// Entries that each ask for at least one copy aggregate.
pub proof fn lemma_aggregate_ok(e: Seq<CodeEntry>)
    requires
        forall|i: int| 0 <= i < e.len() ==> (#[trigger] e[i]).count >= 1,
    ensures
        aggregate_spec(e) is Ok,
    decreases e.len(),
{
    if e.len() > 0 {
        assert forall|i: int| 0 <= i < e.drop_last().len() implies (#[trigger] e.drop_last()[i]).count >= 1 by {
            assert(e.drop_last()[i] == e[i]);
        }
        lemma_aggregate_ok(e.drop_last());
        assert(e.last() == e[e.len() - 1]);
    }
}

proof fn lemma_group_entries_count(g: Seq<Group>, c: u32)
    ensures
        forall|i: int| 0 <= i < group_entries(g, c).len() ==> (#[trigger] group_entries(g, c)[i]).count == c,
    decreases g.len(),
{
    if g.len() > 0 {
        lemma_group_entries_count(g.drop_first(), c);
        let mine = number_entries(g[0].1, g[0].0.0, g[0].0.1, c);
        let rest = group_entries(g.drop_first(), c);
        assert forall|i: int| 0 <= i < (mine + rest).len() implies (#[trigger] (mine + rest)[i]).count == c by {
            if i < mine.len() {
                assert((mine + rest)[i] == mine[i]);
            } else {
                assert((mine + rest)[i] == rest[i - mine.len()]);
            }
        }
    }
}

proof fn lemma_fixed_entries_count(t: Totals, c: u32)
    ensures
        forall|i: int| 0 <= i < fixed_entries(t, c).len() ==> (#[trigger] fixed_entries(t, c)[i]).count >= 1,
    decreases c,
{
    if c > 0 {
        lemma_fixed_entries_count(t, (c - 1) as u32);
        let mine = group_entries(groups_for(t, c), c);
        let rest = fixed_entries(t, (c - 1) as u32);
        lemma_group_entries_count(groups_for(t, c), c);
        assert forall|i: int| 0 <= i < (mine + rest).len() implies (#[trigger] (mine + rest)[i]).count >= 1 by {
            if i < mine.len() {
                assert((mine + rest)[i] == mine[i]);
            } else {
                assert((mine + rest)[i] == rest[i - mine.len()]);
            }
        }
    }
}

proof fn lemma_sparse_entries_count(t: Totals, counts: Seq<u32>)
    requires
        forall|j: int| 0 <= j < counts.len() ==> (#[trigger] counts[j]) >= 1,
    ensures
        forall|i: int| 0 <= i < sparse_entries(t, counts).len() ==> (#[trigger] sparse_entries(t, counts)[i]).count >= 1,
    decreases counts.len(),
{
    if counts.len() > 0 {
        let tail = counts.drop_first();
        assert forall|j: int| 0 <= j < tail.len() implies (#[trigger] tail[j]) >= 1 by {
            assert(tail[j] == counts[j + 1]);
        }
        lemma_sparse_entries_count(t, tail);
        let mine = group_entries(groups_for(t, counts[0]), counts[0]);
        let rest = sparse_entries(t, tail);
        lemma_group_entries_count(groups_for(t, counts[0]), counts[0]);
        assert(counts[0] >= 1);
        assert forall|i: int| 0 <= i < (mine + rest).len() implies (#[trigger] (mine + rest)[i]).count >= 1 by {
            if i < mine.len() {
                assert((mine + rest)[i] == mine[i]);
            } else {
                assert((mine + rest)[i] == rest[i - mine.len()]);
            }
        }
    }
}

proof fn lemma_counts_desc_values(t: Totals)
    ensures
        forall|y: u32| counts_desc(t).contains(y) ==> exists|i: int| 0 <= i < t.len() && (#[trigger] t[i]).1 == y,
    decreases t.len(),
{
    if t.len() > 0 {
        let pre = t.drop_last();
        lemma_counts_desc_values(pre);
        lemma_counts_desc(pre);
        lemma_insert_desc(counts_desc(pre), t.last().1);
        assert forall|y: u32| counts_desc(t).contains(y) implies exists|i: int| 0 <= i < t.len() && (#[trigger] t[i]).1 == y by {
            if y == t.last().1 {
                assert(t[t.len() - 1].1 == y);
            } else {
                assert(counts_desc(pre).contains(y));
                let i = choose|i: int| 0 <= i < pre.len() && (#[trigger] pre[i]).1 == y;
                assert(t[i] == pre[i]);
            }
        }
    }
}

proof fn lemma_section_entries_count(version: u8, t: Totals, ceiling: u32)
    requires
        positive(t),
    ensures
        forall|i: int| 0 <= i < section_entries(version, t, ceiling).len() ==> (#[trigger] section_entries(version, t, ceiling)[i]).count >= 1,
{
    if version >= 5 {
        let counts = counts_desc(t);
        lemma_counts_desc_values(t);
        assert forall|j: int| 0 <= j < counts.len() implies (#[trigger] counts[j]) >= 1 by {
            assert(counts.contains(counts[j]));
            let i = choose|i: int| 0 <= i < t.len() && (#[trigger] t[i]).1 == counts[j];
        }
        lemma_sparse_entries_count(t, counts);
    } else {
        lemma_fixed_entries_count(t, ceiling);
    }
}

/// The totals a section reads back with are the totals it was written from.
proof fn lemma_section_totals(version: u8, e: Seq<CodeEntry>, ceiling: u32, r: Seq<CodeEntry>)
    requires
        aggregate_spec(e) is Ok,
        counts_fit(e),
        r == section_entries(version, aggregate_spec(e)->Ok_0, ceiling),
        forall|x: CardCode| copies_of(r, x) == copies_of(e, x),
    ensures
        aggregate_spec(r) == aggregate_spec(e),
{
    let t = aggregate_spec(e)->Ok_0;
    lemma_aggregate_shape(e);
    lemma_section_entries_count(version, t, ceiling);
    lemma_aggregate_ok(r);
    assert(counts_fit(r));
    lemma_aggregate_shape(r);
    let u = aggregate_spec(r)->Ok_0;
    assert forall|x: CardCode| held(u, x) == held(t, x) by {
        lemma_aggregate_held(r, x);
        lemma_aggregate_held(e, x);
    }
    lemma_totals_determined(u, t);
}

/// Reading a version `version` code back and writing what it reads as a
/// version `version` code again gives the same code.
pub proof fn lemma_code_rewrites_itself(version: u8, d: DeckSpec)
    requires
        encode_as_spec(version, d) is Ok,
        counts_fit(d.0),
        counts_fit(d.1),
        wire_entries(d.0),
        wire_entries(d.1),
        wire_champion(d.2),
        code_fits(aggregate_spec(d.0)->Ok_0),
        code_fits(aggregate_spec(d.1)->Ok_0),
    ensures
        decode_text(base32(encode_as_spec(version, d)->Ok_0)) matches Ok(r) && encode_as_spec(version, r)
            == encode_as_spec(version, d),
{
    lemma_code_reads_back(version, d);
    let m = aggregate_spec(d.0)->Ok_0;
    let s = aggregate_spec(d.1)->Ok_0;
    let r = code_reading(version, m, s, d.2);
    let bytes = code_bytes(version, m, s, d.2);
    lemma_base32_round_trip(bytes);
    lemma_trim_unspaced(base32(bytes));
    lemma_aggregate_wire(d.0);
    lemma_aggregate_wire(d.1);
    lemma_totals_ok(m, deck_flagged(version, m, s, d.2));
    lemma_totals_ok(s, deck_flagged(version, m, s, d.2));
    lemma_decode_code_bytes(version, m, s, d.2);
    assert(decode_text(base32(encode_as_spec(version, d)->Ok_0)) == Ok::<DeckSpec, DecodeFault>(r));
    lemma_section_totals(version, d.0, MAIN_COUNT_CEILING, r.0);
    if version >= 2 {
        lemma_section_totals(version, d.1, SIDE_COUNT_CEILING, r.1);
    } else {
        assert(s.len() == 0);
        assert(r.1 =~= Seq::<CodeEntry>::empty());
        assert(aggregate_spec(r.1) == Ok::<Totals, CodeEntry>(Seq::empty()));
        assert(s =~= Seq::<(CardCode, u32)>::empty());
    }
}

// ---------------------------------------------------------------------------
// The law: a code reads back as the same entries, in some order
// ---------------------------------------------------------------------------

/// No two entries name one card.
pub open spec fn codes_distinct(e: Seq<CodeEntry>) -> bool {
    forall|i: int, j: int| 0 <= i < j < e.len() ==> (#[trigger] e[i]).code != (#[trigger] e[j]).code
}

/// Every entry asks for at least one copy.
pub open spec fn counts_positive(e: Seq<CodeEntry>) -> bool {
    forall|i: int| 0 <= i < e.len() ==> (#[trigger] e[i]).count >= 1
}

proof fn lemma_held_at_absent(t: Totals, x: CardCode, c: u32)
    requires
        forall|i: int| 0 <= i < t.len() ==> (#[trigger] t[i]).0 != x,
    ensures
        held_at(t, x, c) == 0,
        held_last(t, x) == 0,
    decreases t.len(),
{
    if t.len() > 0 {
        assert forall|i: int| 0 <= i < t.drop_last().len() implies (#[trigger] t.drop_last()[i]).0 != x by {
            assert(t.drop_last()[i] == t[i]);
        }
        lemma_held_at_absent(t.drop_last(), x, c);
        assert(t[t.len() - 1] == t.last());
    }
}

/// In totals of distinct cards, a card held at exactly `c` copies is held
/// at `c` copies in all.
proof fn lemma_held_at_hit(t: Totals, x: CardCode, c: u32)
    requires
        ascending(t),
        held_at(t, x, c) > 0,
    ensures
        held_last(t, x) == c,
    decreases t.len(),
{
    let pre = t.drop_last();
    assert forall|a: int, b: int| 0 <= a < b < pre.len() implies code_key((#[trigger] pre[a]).0) < code_key((#[trigger] pre[b]).0) by {
        assert(pre[a] == t[a] && pre[b] == t[b]);
    }
    if t.last().0 == x {
        assert forall|i: int| 0 <= i < pre.len() implies (#[trigger] pre[i]).0 != x by {
            assert(pre[i] == t[i]);
            assert(t[t.len() - 1] == t.last());
            assert(code_key(t[i].0) < code_key(t[t.len() - 1].0));
        }
        lemma_held_at_absent(pre, x, c);
    } else {
        lemma_held_at_hit(pre, x, c);
    }
}

proof fn lemma_copies_ge_entry(e: Seq<CodeEntry>, i: int)
    requires
        0 <= i < e.len(),
    ensures
        copies_of(e, e[i].code) >= e[i].count,
    decreases e.len(),
{
    if i < e.len() - 1 {
        assert(e.drop_last()[i] == e[i]);
        lemma_copies_ge_entry(e.drop_last(), i);
    }
}

proof fn lemma_copies_ge_pair(e: Seq<CodeEntry>, i: int, j: int)
    requires
        0 <= i < j < e.len(),
        e[i].code == e[j].code,
    ensures
        copies_of(e, e[i].code) >= e[i].count + e[j].count,
    decreases e.len(),
{
    if j < e.len() - 1 {
        assert(e.drop_last()[i] == e[i] && e.drop_last()[j] == e[j]);
        lemma_copies_ge_pair(e.drop_last(), i, j);
    } else {
        assert(e.drop_last()[i] == e[i]);
        lemma_copies_ge_entry(e.drop_last(), i);
    }
}

/// Each entry a block of `c` copies lists is a card held at `c` copies.
proof fn lemma_block_matches(t: Totals, c: u32)
    requires
        ascending(t),
        c >= 1,
    ensures
        forall|i: int| 0 <= i < group_entries(groups_for(t, c), c).len() ==> held_last(t, (#[trigger] group_entries(groups_for(t, c), c)[i]).code) == group_entries(groups_for(t, c), c)[i].count,
{
    let b = group_entries(groups_for(t, c), c);
    lemma_group_entries_count(groups_for(t, c), c);
    assert forall|i: int| 0 <= i < b.len() implies held_last(t, (#[trigger] b[i]).code) == b[i].count by {
        lemma_copies_ge_entry(b, i);
        lemma_copies_group_list(t, c, b[i].code);
        lemma_held_at_hit(t, b[i].code, c);
    }
}

proof fn lemma_fixed_matches(t: Totals, c: u32)
    requires
        ascending(t),
    ensures
        forall|i: int| 0 <= i < fixed_entries(t, c).len() ==> held_last(t, (#[trigger] fixed_entries(t, c)[i]).code) == fixed_entries(t, c)[i].count,
    decreases c,
{
    if c > 0 {
        lemma_fixed_matches(t, (c - 1) as u32);
        lemma_block_matches(t, c);
        let mine = group_entries(groups_for(t, c), c);
        let rest = fixed_entries(t, (c - 1) as u32);
        assert forall|i: int| 0 <= i < (mine + rest).len() implies held_last(t, (#[trigger] (mine + rest)[i]).code) == (mine + rest)[i].count by {
            if i < mine.len() {
                assert((mine + rest)[i] == mine[i]);
            } else {
                assert((mine + rest)[i] == rest[i - mine.len()]);
            }
        }
    }
}

proof fn lemma_sparse_matches(t: Totals, counts: Seq<u32>)
    requires
        ascending(t),
        forall|j: int| 0 <= j < counts.len() ==> (#[trigger] counts[j]) >= 1,
    ensures
        forall|i: int| 0 <= i < sparse_entries(t, counts).len() ==> held_last(t, (#[trigger] sparse_entries(t, counts)[i]).code) == sparse_entries(t, counts)[i].count,
    decreases counts.len(),
{
    if counts.len() > 0 {
        let tail = counts.drop_first();
        assert forall|j: int| 0 <= j < tail.len() implies (#[trigger] tail[j]) >= 1 by {
            assert(tail[j] == counts[j + 1]);
        }
        lemma_sparse_matches(t, tail);
        lemma_block_matches(t, counts[0]);
        let mine = group_entries(groups_for(t, counts[0]), counts[0]);
        let rest = sparse_entries(t, tail);
        assert forall|i: int| 0 <= i < (mine + rest).len() implies held_last(t, (#[trigger] (mine + rest)[i]).code) == (mine + rest)[i].count by {
            if i < mine.len() {
                assert((mine + rest)[i] == mine[i]);
            } else {
                assert((mine + rest)[i] == rest[i - mine.len()]);
            }
        }
    }
}

/// A section lists each card once.
proof fn lemma_section_distinct(version: u8, t: Totals, ceiling: u32)
    requires
        ascending(t),
        positive(t),
        version < 5 ==> !any_over(t, ceiling),
    ensures
        codes_distinct(section_entries(version, t, ceiling)),
        counts_positive(section_entries(version, t, ceiling)),
{
    let r = section_entries(version, t, ceiling);
    lemma_section_entries_count(version, t, ceiling);
    if version >= 5 {
        let counts = counts_desc(t);
        lemma_counts_desc_values(t);
        assert forall|j: int| 0 <= j < counts.len() implies (#[trigger] counts[j]) >= 1 by {
            assert(counts.contains(counts[j]));
            let i = choose|i: int| 0 <= i < t.len() && (#[trigger] t[i]).1 == counts[j];
        }
        lemma_sparse_matches(t, counts);
    } else {
        lemma_fixed_matches(t, ceiling);
    }
    assert forall|i: int, j: int| 0 <= i < j < r.len() implies (#[trigger] r[i]).code != (#[trigger] r[j]).code by {
        if r[i].code == r[j].code {
            let x = r[i].code;
            lemma_copies_ge_pair(r, i, j);
            lemma_section_copies(version, t, ceiling, x);
            lemma_held_last(t, x);
        }
    }
}

/// Entries that name each card once, with at least one copy, are fixed by
/// the copies of each card: an entry is among them exactly when its card
/// has that many copies.
proof fn lemma_distinct_multiset(e: Seq<CodeEntry>, y: CodeEntry)
    requires
        codes_distinct(e),
        counts_positive(e),
    ensures
        e.to_multiset().count(y) == if copies_of(e, y.code) == y.count && y.count >= 1 {
            1nat
        } else {
            0nat
        },
    decreases e.len(),
{
    broadcast use vstd::seq_lib::group_to_multiset_ensures;
    if e.len() == 0 {
    } else {
        let pre = e.drop_last();
        let z = e.last();
        assert forall|i: int, j: int| 0 <= i < j < pre.len() implies (#[trigger] pre[i]).code != (#[trigger] pre[j]).code by {
            assert(pre[i] == e[i] && pre[j] == e[j]);
        }
        assert forall|i: int| 0 <= i < pre.len() implies (#[trigger] pre[i]).count >= 1 by {
            assert(pre[i] == e[i]);
        }
        lemma_distinct_multiset(pre, y);
        assert(e =~= pre.push(z));
        assert(e.to_multiset() =~= pre.to_multiset().insert(z));
        assert(e[e.len() - 1] == z);
        if z.code == y.code {
            assert forall|i: int| 0 <= i < pre.len() implies (#[trigger] pre[i]).code != z.code by {
                assert(pre[i] == e[i]);
            }
            lemma_copies_absent(pre, z.code);
            if z != y {
                assert(z.count != y.count);
            }
        }
    }
}

proof fn lemma_copies_absent(e: Seq<CodeEntry>, x: CardCode)
    requires
        forall|i: int| 0 <= i < e.len() ==> (#[trigger] e[i]).code != x,
    ensures
        copies_of(e, x) == 0,
    decreases e.len(),
{
    if e.len() > 0 {
        assert forall|i: int| 0 <= i < e.drop_last().len() implies (#[trigger] e.drop_last()[i]).code != x by {
            assert(e.drop_last()[i] == e[i]);
        }
        lemma_copies_absent(e.drop_last(), x);
        assert(e[e.len() - 1] == e.last());
    }
}

/// A deck that names each card once per list, with at least one copy,
/// written as a version `version` code, reads back as the same entries in
/// some order, with the same chosen champion.
pub proof fn lemma_code_reads_back_entries(version: u8, d: DeckSpec)
    requires
        encode_as_spec(version, d) is Ok,
        counts_fit(d.0),
        counts_fit(d.1),
        wire_entries(d.0),
        wire_entries(d.1),
        wire_champion(d.2),
        code_fits(aggregate_spec(d.0)->Ok_0),
        code_fits(aggregate_spec(d.1)->Ok_0),
        codes_distinct(d.0),
        codes_distinct(d.1),
    ensures
        decode_text(base32(encode_as_spec(version, d)->Ok_0)) matches Ok(r) && r.2 == d.2
            && r.0.to_multiset() == d.0.to_multiset() && r.1.to_multiset() == d.1.to_multiset(),
{
    lemma_code_reads_back(version, d);
    let m = aggregate_spec(d.0)->Ok_0;
    let s = aggregate_spec(d.1)->Ok_0;
    let r = code_reading(version, m, s, d.2);
    let bytes = code_bytes(version, m, s, d.2);
    lemma_base32_round_trip(bytes);
    lemma_trim_unspaced(base32(bytes));
    lemma_aggregate_wire(d.0);
    lemma_aggregate_wire(d.1);
    lemma_totals_ok(m, deck_flagged(version, m, s, d.2));
    lemma_totals_ok(s, deck_flagged(version, m, s, d.2));
    lemma_decode_code_bytes(version, m, s, d.2);
    assert(decode_text(base32(encode_as_spec(version, d)->Ok_0)) == Ok::<DeckSpec, DecodeFault>(r));
    lemma_aggregate_shape(d.0);
    lemma_aggregate_shape(d.1);
    lemma_section_distinct(version, m, MAIN_COUNT_CEILING);
    if version >= 2 {
        lemma_section_distinct(version, s, SIDE_COUNT_CEILING);
    } else {
        assert(r.1 =~= Seq::<CodeEntry>::empty());
    }
    assert(counts_positive(d.0)) by {
        assert forall|i: int| 0 <= i < d.0.len() implies (#[trigger] d.0[i]).count >= 1 by {
            crate::riftbound::deck_code::lemma_aggregate_prefix_ok(d.0, i + 1);
            assert(d.0.take(i + 1).drop_last() =~= d.0.take(i));
            assert(d.0.take(i + 1).last() == d.0[i]);
        }
    }
    assert(counts_positive(d.1)) by {
        assert forall|i: int| 0 <= i < d.1.len() implies (#[trigger] d.1[i]).count >= 1 by {
            crate::riftbound::deck_code::lemma_aggregate_prefix_ok(d.1, i + 1);
            assert(d.1.take(i + 1).drop_last() =~= d.1.take(i));
            assert(d.1.take(i + 1).last() == d.1[i]);
        }
    }
    assert forall|y: CodeEntry| #[trigger] r.0.to_multiset().count(y) == d.0.to_multiset().count(y) by {
        lemma_distinct_multiset(r.0, y);
        lemma_distinct_multiset(d.0, y);
    }
    assert forall|y: CodeEntry| #[trigger] r.1.to_multiset().count(y) == d.1.to_multiset().count(y) by {
        lemma_distinct_multiset(r.1, y);
        lemma_distinct_multiset(d.1, y);
    }
    assert(r.0.to_multiset() =~= d.0.to_multiset());
    assert(r.1.to_multiset() =~= d.1.to_multiset());
}

} // verus!
