//! Card placement and flag model: the [`Micro`] enum plus the bit helpers over
//! the cards table's flag columns. The bit layout comes from
//! [`crate::codec::flags`].
//!
//! # Columns
//!
//! - `flags` (u32): propagating: state bits, placement (`stack` / `index`), and
//!   the refcount holds. All helpers here that take a `flags: u32` read this word.
//! - `stock` (u32): per-card variable data, via [`stock`] / [`write_stock`].
//!
//! # Stack semantics
//!
//! `stack` (bits 0-3 of `flags`) is the discriminator:
//!   - `stack == 0`: loose: `micro_location` is packed cell coords + offset, and
//!     `index` (bits 4-7) is unused.
//!   - `stack != 0`: stack member: `micro_location` is the root card id, `stack`
//!     is `branch + 1`, and `index` is the slot within the branch (0..15).

use vstd::prelude::*;
use crate::codec::flags::{
    FlagField, DEAD_BIT, DROP_HOLD_SHIFT, DROP_HOLD_WIDTH, INDEX_SHIFT, INDEX_WIDTH, POSITION_HOLD_SHIFT,
    POSITION_HOLD_WIDTH, POS_NEED_BIT, POS_WANT_BIT, SERVER_SHIFT, SERVER_WIDTH, SLOT_BORROW_SHIFT,
    SLOT_BORROW_WIDTH, SLOT_CLAIM_SHIFT, SLOT_CLAIM_WIDTH, STACK_SHIFT, STACK_WIDTH, STOCK_0_SHIFT,
    STOCK_0_WIDTH, STOCK_1_SHIFT, STOCK_1_WIDTH, SURFACE_LOCKED_BIT, TOUCH_SHIFT, TOUCH_WIDTH, ZONE_BORN_BIT,
};
use crate::codec::packed::{pack_micro_loose, unpack_micro_loose, STACK_STATE_DEFERRED};

verus! {

use crate::codec::flags::{declared_bit, declared_field, field_value, has_bit, low_bits, window};
use crate::codec::packed::{micro_loose, signed_residue};

/// Mask of the stock bits that can be saved back to a zone tile slot (the bottom
/// u4). The upper 28 bits are card-only.
pub const STOCK_ZONE_SAVE_MASK: u32 = 0x0000_000F;

/// A card's micro placement: a stack member of a root, or loose at a cell.
/// Interpreted via the `stack` field in `flags` (0 = loose).
#[derive(Clone, Copy, Debug, PartialEq, Eq, Structural)]
pub enum Micro {
    /// Stack member of `root` in `branch` (`STACK_DIR_HEX` / `UP` / `DOWN`, or
    /// `STACK_STATE_DEFERRED`) at slot `index`.
    Stacked { root: u32, branch: u8, index: u8 },
    /// Loose at cell `(local_q, local_r)` with a within-cell offset `(x, y)`.
    Loose { local_q: u8, local_r: u8, x: i16, y: i16 },
}

/// The `stack` field of a flag word.
pub open spec fn stack_value(flags: u32) -> u32 {
    field_value(flags, STACK_SHIFT, STACK_WIDTH)
}

/// The `index` field of a flag word.
pub open spec fn index_value(flags: u32) -> u32 {
    field_value(flags, INDEX_SHIFT, INDEX_WIDTH)
}

/// The bits of the placement fields.
pub open spec fn placement_bits() -> u32 {
    window(STACK_SHIFT, STACK_WIDTH) | window(INDEX_SHIFT, INDEX_WIDTH)
}

/// The smaller of a value and a field's largest value.
pub open spec fn clamped(value: int, max: int) -> u32 {
    (if value < max {
        value
    } else {
        max
    }) as u32
}

/// The placement a `(micro_location, flags)` pair encodes.
pub open spec fn micro_of(micro_location: u32, flags: u32) -> Micro {
    if stack_value(flags) != 0 {
        Micro::Stacked {
            root: micro_location,
            branch: (stack_value(flags) - 1) as u8,
            index: index_value(flags) as u8,
        }
    } else {
        Micro::Loose {
            local_q: (micro_location as int / 0x2000_0000) as u8,
            local_r: (micro_location as int / 0x400_0000 % 8) as u8,
            x: signed_residue(micro_location as int / 0x2000 % 8192, 8192) as i16,
            y: signed_residue(micro_location as int % 8192, 8192) as i16,
        }
    }
}

/// The `micro_location` a placement is written with.
pub open spec fn applied_location(micro: Micro) -> u32 {
    match micro {
        Micro::Stacked { root, .. } => root,
        Micro::Loose { local_q, local_r, x, y } => micro_loose(
            local_q as int,
            local_r as int,
            x as int,
            y as int,
        ) as u32,
    }
}

/// The `stack` field a placement is written with: `branch + 1` capped at the
/// field's width, 0 when loose.
pub open spec fn applied_stack(micro: Micro) -> u32 {
    match micro {
        Micro::Stacked { branch, .. } => clamped(branch + 1, 15),
        Micro::Loose { .. } => 0,
    }
}

/// The `index` field a placement is written with, 0 when loose.
pub open spec fn applied_index(micro: Micro) -> u32 {
    match micro {
        Micro::Stacked { index, .. } => clamped(index as int, 15),
        Micro::Loose { .. } => 0,
    }
}

/// Whether `after` is `before` with only the placement fields rewritten, to
/// those of `micro`.
pub open spec fn placement_written(micro: Micro, before: u32, after: u32) -> bool {
    &&& stack_value(after) == applied_stack(micro)
    &&& index_value(after) == applied_index(micro)
    &&& after & !placement_bits() == before & !placement_bits()
}

impl Micro {
    /// Loose with no within-cell offset (snapped to the cell center).
    pub fn snap(local_q: u8, local_r: u8) -> (r: Self)
        ensures
            r == (Micro::Loose { local_q, local_r, x: 0, y: 0 }),
    {
        Micro::Loose { local_q, local_r, x: 0, y: 0 }
    }

    /// A deferred stack member anchored to `host`.
    pub fn deferred(host: u32) -> (r: Self)
        ensures
            r == (Micro::Stacked { root: host, branch: STACK_STATE_DEFERRED, index: 0 }),
    {
        Micro::Stacked { root: host, branch: STACK_STATE_DEFERRED, index: 0 }
    }

    /// Compute the `(micro_location, flags)` for this placement given the card's
    /// current `flags` (all non-placement bits, state and refcounts, preserved).
    pub fn apply(self, flags: u32) -> (r: (u32, u32))
        ensures
            r.0 == applied_location(self),
            placement_written(self, flags, r.1),
    {
        let l = layout();
        let cleared = flags & !(l.stack.mask | l.index.mask);
        proof {
            lemma_windows();
        }
        match self {
            Micro::Stacked { root, branch, index } => {
                let s = l.stack.pack(branch as u32 + 1);
                let i = l.index.pack(index as u32);
                proof {
                    lemma_placement_write(flags, applied_stack(self), applied_index(self));
                }
                (root, cleared | s | i)
            },
            Micro::Loose { local_q, local_r, x, y } => {
                proof {
                    lemma_placement_write(flags, 0, 0);
                }
                (pack_micro_loose(local_q, local_r, x, y), cleared)
            },
        }
    }

    /// Decode a row's current micro placement from its `(micro_location, flags)`.
    pub fn of(micro_location: u32, flags: u32) -> (r: Self)
        ensures
            r == micro_of(micro_location, flags),
    {
        let l = layout();
        let stack: u32 = l.stack.read(flags);
        if stack != 0 {
            let index: u32 = l.index.read(flags);
            proof {
                lemma_windows();
            }
            Micro::Stacked { root: micro_location, branch: (stack - 1) as u8, index: index as u8 }
        } else {
            let (local_q, local_r, x, y) = unpack_micro_loose(micro_location);
            Micro::Loose { local_q, local_r, x, y }
        }
    }
}

/// True when `flags` marks `micro_location` as a root card id (a stack member),
/// i.e. the `stack` field is nonzero.
pub fn micro_is_card(flags: u32) -> (r: bool)
    ensures
        r == (stack_value(flags) != 0),
{
    layout().stack.read(flags) != 0
}

/// The branch a flag word places its card in, 0 when loose.
pub open spec fn branch_value(flags: u32) -> u8 {
    if stack_value(flags) == 0 {
        0
    } else {
        (stack_value(flags) - 1) as u8
    }
}

/// The stack `branch` value (only meaningful when [`micro_is_card`]).
pub fn stack_branch(flags: u32) -> (r: u8)
    ensures
        r == branch_value(flags),
{
    let s: u32 = layout().stack.read(flags);
    if s == 0 {
        0
    } else {
        (s - 1) as u8
    }
}

/// The `index` slot value within a branch (only meaningful when [`micro_is_card`]).
pub fn stack_index(flags: u32) -> (r: u8)
    ensures
        r == index_value(flags),
{
    proof {
        lemma_windows();
    }
    layout().index.read(flags) as u8
}

/// Bitmask of the placement fields (`stack` + `index`) within `flags`.
pub fn placement_mask() -> (r: u32)
    ensures
        r == placement_bits(),
        r == 0x0000_00FF,
{
    let l = layout();
    proof {
        lemma_windows();
    }
    l.stack.mask | l.index.mask
}

/// The propagated state bits.
pub open spec fn state_bits() -> u32 {
    (1u32 << DEAD_BIT) | (1u32 << POS_NEED_BIT) | (1u32 << POS_WANT_BIT) | (1u32
        << SURFACE_LOCKED_BIT) | (1u32 << ZONE_BORN_BIT)
}

/// Bitmask of the bit-diff-propagated state bits within `flags` (`dead`,
/// `pos_need`, `pos_want`, `surface_locked`, `zone_born`). Refcounts and
/// placement are deliberately excluded. So is bit 24, `player_owned`: the registry
/// declares it, but it is retired and deliberately not propagated, since a player
/// soul is known by its definition.
pub fn state_mask() -> (r: u32)
    ensures
        r == state_bits(),
        r == 0x3E00_0000,
{
    proof {
        lemma_windows();
    }
    layout().state_mask
}

/// The lowest bit of a zone-savable stock slot: slot parity picks the field.
pub open spec fn stock_shift(slot: usize) -> u8 {
    if slot % 2 == 0 {
        STOCK_0_SHIFT
    } else {
        STOCK_1_SHIFT
    }
}

/// The value of a zone-savable stock slot.
pub open spec fn stock_value(stock: u32, slot: usize) -> u32 {
    field_value(stock, stock_shift(slot), 2)
}

/// Read zone-savable stock `slot` (0 or 1, the bottom u4) of the `stock` word.
///
/// The `stock` column is a full `u32` of per-card variable data. Only the bottom
/// 4 bits ([`STOCK_ZONE_SAVE_MASK`], two u2 slots) can be persisted back into a
/// zone tile slot; the upper 28 bits are card-only.
pub fn stock(word: u32, slot: usize) -> (r: u8)
    ensures
        r == stock_value(word, slot),
{
    let f = stock_field(slot);
    proof {
        lemma_windows();
    }
    f.read(word) as u8
}

/// Write zone-savable stock `slot` into the `stock` word, returning the new word
/// (value clamped to the 2-bit field width; all other bits preserved).
pub fn write_stock(word: u32, slot: usize, value: u8) -> (r: u32)
    ensures
        stock_value(r, slot) == clamped(value as int, 3),
        r & !window(stock_shift(slot), 2) == word & !window(stock_shift(slot), 2),
{
    let f = stock_field(slot);
    proof {
        lemma_windows();
    }
    f.write(word, value as u32)
}

/// A refcount count field in `flags`. The lease-acquiring recipe verbs map to
/// `SlotClaim` (`use` / `claim`), `SlotBorrow` (`share` / `borrow`),
/// `PositionHold`, and `Touch` (rides along on any held card). `DropHold`
/// (stacking-block) and `Server` (parallel-reducer safety) are server-internal
/// counts. The variants are numbered from 0 in this order.
#[derive(Clone, Copy, Debug, PartialEq, Eq, Structural)]
pub enum HoldField {
    Touch,
    SlotClaim,
    SlotBorrow,
    PositionHold,
    DropHold,
    Server,
}

/// Lowest bit of a refcount field.
pub open spec fn hold_shift(field: HoldField) -> u8 {
    match field {
        HoldField::Touch => TOUCH_SHIFT,
        HoldField::SlotClaim => SLOT_CLAIM_SHIFT,
        HoldField::SlotBorrow => SLOT_BORROW_SHIFT,
        HoldField::PositionHold => POSITION_HOLD_SHIFT,
        HoldField::DropHold => DROP_HOLD_SHIFT,
        HoldField::Server => SERVER_SHIFT,
    }
}

/// Bit count of a refcount field.
pub open spec fn hold_width(field: HoldField) -> u8 {
    match field {
        HoldField::Touch => TOUCH_WIDTH,
        HoldField::SlotClaim => SLOT_CLAIM_WIDTH,
        HoldField::SlotBorrow => SLOT_BORROW_WIDTH,
        HoldField::PositionHold => POSITION_HOLD_WIDTH,
        HoldField::DropHold => DROP_HOLD_WIDTH,
        HoldField::Server => SERVER_WIDTH,
    }
}

/// The largest count a refcount field holds.
pub open spec fn hold_max(field: HoldField) -> int {
    match field {
        HoldField::Touch => 3,
        HoldField::Server => 3,
        _ => 7,
    }
}

/// The bits of a refcount field.
pub open spec fn hold_bits(field: HoldField) -> u32 {
    window(hold_shift(field), hold_width(field))
}

/// The count a flag word holds in a refcount field.
pub open spec fn hold_value(flags: u32, field: HoldField) -> u32 {
    field_value(flags, hold_shift(field), hold_width(field))
}

/// The bits of all six refcount fields.
pub open spec fn all_hold_bits() -> u32 {
    hold_bits(HoldField::Touch) | hold_bits(HoldField::SlotClaim) | hold_bits(
        HoldField::SlotBorrow,
    ) | hold_bits(HoldField::PositionHold) | hold_bits(HoldField::DropHold) | hold_bits(
        HoldField::Server,
    )
}

/// True when any refcount hold field in `flags` is nonzero, i.e. the card is
/// actively held by at least one party. A tile-card with active holds is
/// mid-action and must NOT be demoted.
pub fn has_active_holds(flags: u32) -> (r: bool)
    ensures
        r <==> exists|field: HoldField| #[trigger] hold_value(flags, field) != 0,
        r <==> flags & all_hold_bits() != 0,
{
    let r = flags & layout().hold_counts_mask != 0;
    proof {
        lemma_active_holds(flags);
    }
    r
}

/// True when `flags` carries something a bare zone tile slot can't express, so
/// the card must NOT be demoted back into its zone: any of `dead`, `pos_need`,
/// `pos_want`.
pub fn state_blocks_demotion(flags: u32) -> (r: bool)
    ensures
        r <==> has_bit(flags, DEAD_BIT) || has_bit(flags, POS_NEED_BIT) || has_bit(
            flags,
            POS_WANT_BIT,
        ),
{
    let l = layout();
    proof {
        lemma_union(flags, l.dead | l.pos_need, l.pos_want);
        lemma_union(flags, l.dead, l.pos_need);
    }
    flags & l.demote_blocking != 0
}

/// Read a hold/refcount `field` value out of `flags`.
pub fn hold_count(flags: u32, field: HoldField) -> (r: u8)
    ensures
        r == hold_value(flags, field),
        r <= hold_max(field),
{
    let f = count_field(field);
    proof {
        lemma_windows();
    }
    f.read(flags) as u8
}

/// Read the `drop_hold_count` refcount, the stacking block. Used by recipe
/// binding validation.
pub fn drop_hold_count(flags: u32) -> (r: u8)
    ensures
        r == hold_value(flags, HoldField::DropHold),
        r <= 7,
{
    proof {
        lemma_windows();
    }
    layout().drop_hold.read(flags) as u8
}

/// `flags.dead` set?
pub fn is_dead(flags: u32) -> (r: bool)
    ensures
        r == has_bit(flags, DEAD_BIT),
{
    flags & layout().dead != 0
}

/// `flags.pos_need`: the server REQUIRES this card's position (a spawn or an
/// authoritative relocation). A client with a pending local move must adopt it.
pub fn pos_need(flags: u32) -> (r: bool)
    ensures
        r == has_bit(flags, POS_NEED_BIT),
{
    flags & layout().pos_need != 0
}

/// `flags.pos_want`: the server's position is advisory (set on recipe outputs).
/// A client holding a pending local move (dirty position) keeps its own.
pub fn pos_want(flags: u32) -> (r: bool)
    ensures
        r == has_bit(flags, POS_WANT_BIT),
{
    flags & layout().pos_want != 0
}

/// Whether a flag word makes its card ineligible for any new action.
pub open spec fn blocked(flags: u32) -> bool {
    has_bit(flags, DEAD_BIT) || hold_value(flags, HoldField::SlotClaim) > 0
}

/// Whether a card is ineligible to be bound into ANY new action, verb-independent:
/// it's `dead` (destroyed) or exclusively `slot_claim`-held by an in-flight action.
/// The shared baseline both sides apply: the server's binding check applies it
/// before its verb-specific checks, and the client matcher skips such cards so it
/// never proposes what the server would reject.
pub fn bind_blocked(flags: u32) -> (r: bool)
    ensures
        r == blocked(flags),
{
    is_dead(flags) || hold_count(flags, HoldField::SlotClaim) > 0
}

/// Whether `after` is `before` with only the refcount `field` rewritten, to `count`.
pub open spec fn hold_written(field: HoldField, count: int, before: u32, after: u32) -> bool {
    &&& hold_value(after, field) == count
    &&& after & !hold_bits(field) == before & !hold_bits(field)
}

/// `flags` with `field` incremented by one (saturating at the field's max).
pub fn increment_hold(flags: u32, field: HoldField) -> (r: u32)
    ensures
        hold_written(
            field,
            clamped(hold_value(flags, field) + 1, hold_max(field)) as int,
            flags,
            r,
        ),
{
    let f = count_field(field);
    proof {
        lemma_windows();
    }
    f.increment(flags)
}

/// `flags` with `field` decremented by one (saturating at 0).
pub fn decrement_hold(flags: u32, field: HoldField) -> (r: u32)
    ensures
        hold_written(
            field,
            if hold_value(flags, field) == 0 {
                0
            } else {
                hold_value(flags, field) - 1
            },
            flags,
            r,
        ),
{
    let f = count_field(field);
    proof {
        lemma_windows();
    }
    f.decrement(flags)
}

fn count_field(field: HoldField) -> (r: CountField)
    ensures
        r == described(hold_shift(field), hold_width(field)),
        r.wf(),
{
    let l = layout();
    match field {
        HoldField::Touch => l.touch,
        HoldField::SlotClaim => l.slot_claim,
        HoldField::SlotBorrow => l.slot_borrow,
        HoldField::PositionHold => l.position_hold,
        HoldField::DropHold => l.drop_hold,
        HoldField::Server => l.server,
    }
}

/// A refcount / placement field's window: pre-built mask, low-bit shift, and max
/// value (`(1 << width) - 1`), for saturating arithmetic.
#[derive(Clone, Copy)]
struct CountField {
    mask: u32,
    shift: u8,
    max: u32,
}

/// The window of a field at `shift`, `width` bits wide.
spec fn described(shift: u8, width: u8) -> CountField {
    CountField { mask: window(shift, width), shift, max: low_bits(width) }
}

impl CountField {
    /// The mask is `max` moved up by `shift`, and `max` is a run of low bits.
    spec fn wf(self) -> bool {
        &&& self.shift < 32
        &&& self.mask == self.max << self.shift
        &&& self.mask >> self.shift == self.max
        &&& self.max < 0xFFFF_FFFF
        &&& self.max & ((self.max + 1) as u32) == 0
    }

    spec fn value(self, flags: u32) -> u32 {
        (flags & self.mask) >> self.shift
    }

    fn read(self, flags: u32) -> (r: u32)
        requires
            self.wf(),
        ensures
            r == self.value(flags),
            r <= self.max,
    {
        let (mask, shift, max) = (self.mask, self.shift, self.max);
        assert((flags & mask) >> shift <= max) by (bit_vector)
            requires
                shift < 32,
                mask >> shift == max,
        ;
        (flags & self.mask) >> self.shift
    }

    fn pack(self, value: u32) -> (r: u32)
        requires
            self.wf(),
        ensures
            r == clamped(value as int, self.max as int) << self.shift,
            r & self.mask == r,
            r >> self.shift == clamped(value as int, self.max as int),
    {
        let v: u32 = if value < self.max {
            value
        } else {
            self.max
        };
        proof {
            let (mask, shift, max) = (self.mask, self.shift, self.max);
            let next = (max + 1) as u32;
            assert((v << shift) & mask == v << shift && (v << shift) >> shift == v) by (bit_vector)
                requires
                    v <= max,
                    shift < 32,
                    mask == max << shift,
                    mask >> shift == max,
                    max < 0xFFFF_FFFF,
                    next == max + 1,
                    max & next == 0,
            ;
        }
        (v << self.shift) & self.mask
    }

    fn write(self, flags: u32, value: u32) -> (r: u32)
        requires
            self.wf(),
        ensures
            self.value(r) == clamped(value as int, self.max as int),
            r & !self.mask == flags & !self.mask,
    {
        let p = self.pack(value);
        let r = (flags & !self.mask) | p;
        proof {
            let mask = self.mask;
            assert(r & mask == p && r & !mask == flags & !mask) by (bit_vector)
                requires
                    r == (flags & !mask) | p,
                    p & mask == p,
            ;
        }
        r
    }

    fn increment(self, flags: u32) -> (r: u32)
        requires
            self.wf(),
        ensures
            self.value(r) == clamped(self.value(flags) + 1, self.max as int),
            r & !self.mask == flags & !self.mask,
    {
        let current: u32 = self.read(flags);
        self.write(flags, current + 1)
    }

    fn decrement(self, flags: u32) -> (r: u32)
        requires
            self.wf(),
        ensures
            self.value(r) == if self.value(flags) == 0 {
                0
            } else {
                self.value(flags) - 1
            },
            r & !self.mask == flags & !self.mask,
    {
        let current: u32 = self.read(flags);
        if current == 0 {
            self.write(flags, 0)
        } else {
            self.write(flags, current - 1)
        }
    }
}

struct FlagsLayout {
    stack: CountField,
    index: CountField,
    // refcount holds
    touch: CountField,
    slot_claim: CountField,
    slot_borrow: CountField,
    position_hold: CountField,
    drop_hold: CountField,
    server: CountField,
    /// Union of all six refcount field masks: nonzero iff any hold is held.
    hold_counts_mask: u32,
    // single-bit state
    dead: u32,
    /// The server REQUIRES this position (authoritative).
    pos_need: u32,
    /// The server's position is advisory (a recipe output).
    pos_want: u32,
    /// Union of the bit-diff-propagated state bits.
    state_mask: u32,
    /// `dead | pos_need | pos_want`: blocks demotion back to a tile slot.
    demote_blocking: u32,
}

impl FlagsLayout {
    /// The masks and windows the registry in `flags` declares.
    spec fn wf(self) -> bool {
        &&& self.stack == described(STACK_SHIFT, STACK_WIDTH) && self.stack.wf()
        &&& self.index == described(INDEX_SHIFT, INDEX_WIDTH) && self.index.wf()
        &&& self.touch == described(TOUCH_SHIFT, TOUCH_WIDTH) && self.touch.wf()
        &&& self.slot_claim == described(SLOT_CLAIM_SHIFT, SLOT_CLAIM_WIDTH) && self.slot_claim.wf()
        &&& self.slot_borrow == described(SLOT_BORROW_SHIFT, SLOT_BORROW_WIDTH)
            && self.slot_borrow.wf()
        &&& self.position_hold == described(POSITION_HOLD_SHIFT, POSITION_HOLD_WIDTH)
            && self.position_hold.wf()
        &&& self.drop_hold == described(DROP_HOLD_SHIFT, DROP_HOLD_WIDTH) && self.drop_hold.wf()
        &&& self.server == described(SERVER_SHIFT, SERVER_WIDTH) && self.server.wf()
        &&& self.hold_counts_mask == all_hold_bits()
        &&& self.dead == 1u32 << DEAD_BIT
        &&& self.pos_need == 1u32 << POS_NEED_BIT
        &&& self.pos_want == 1u32 << POS_WANT_BIT
        &&& self.state_mask == state_bits()
        &&& self.demote_blocking == self.dead | self.pos_need | self.pos_want
    }
}

/// The window of a declared field.
fn declared_window(shift: u8, width: u8) -> (r: CountField)
    requires
        0 < width < 32,
        shift + width <= 32,
    ensures
        r == described(shift, width),
        r.wf(),
{
    let f = FlagField { shift, width };
    let base = FlagField { shift: 0, width };
    proof {
        let max = low_bits(width);
        let next = (max + 1) as u32;
        assert(max < 0xFFFF_FFFF && (max << shift) >> shift == max && max & ((max + 1) as u32) == 0
            && max << 0u8 == max) by (bit_vector)
            requires
                max == low_bits(width),
                0 < width < 32,
                shift + width <= 32,
        ;
    }
    CountField { mask: f.mask(), shift, max: base.mask() }
}

fn layout() -> (r: FlagsLayout)
    ensures
        r.wf(),
{
    let touch = declared_window(TOUCH_SHIFT, TOUCH_WIDTH);
    let slot_claim = declared_window(SLOT_CLAIM_SHIFT, SLOT_CLAIM_WIDTH);
    let slot_borrow = declared_window(SLOT_BORROW_SHIFT, SLOT_BORROW_WIDTH);
    let position_hold = declared_window(POSITION_HOLD_SHIFT, POSITION_HOLD_WIDTH);
    let drop_hold = declared_window(DROP_HOLD_SHIFT, DROP_HOLD_WIDTH);
    let server = declared_window(SERVER_SHIFT, SERVER_WIDTH);
    let hold_counts_mask = touch.mask | slot_claim.mask | slot_borrow.mask | position_hold.mask
        | drop_hold.mask | server.mask;
    let dead: u32 = 1u32 << DEAD_BIT;
    let pos_need: u32 = 1u32 << POS_NEED_BIT;
    let pos_want: u32 = 1u32 << POS_WANT_BIT;
    let surface_locked: u32 = 1u32 << SURFACE_LOCKED_BIT;
    let zone_born: u32 = 1u32 << ZONE_BORN_BIT;
    FlagsLayout {
        stack: declared_window(STACK_SHIFT, STACK_WIDTH),
        index: declared_window(INDEX_SHIFT, INDEX_WIDTH),
        touch,
        slot_claim,
        slot_borrow,
        position_hold,
        drop_hold,
        server,
        hold_counts_mask,
        dead,
        pos_need,
        pos_want,
        state_mask: dead | pos_need | pos_want | surface_locked | zone_born,
        demote_blocking: dead | pos_need | pos_want,
    }
}

fn stock_field(slot: usize) -> (r: CountField)
    ensures
        r == described(stock_shift(slot), 2),
        r.wf(),
{
    if slot % 2 == 0 {
        declared_window(STOCK_0_SHIFT, STOCK_0_WIDTH)
    } else {
        declared_window(STOCK_1_SHIFT, STOCK_1_WIDTH)
    }
}

/// The concrete masks of the layout.
proof fn lemma_windows()
    ensures
        window(STACK_SHIFT, STACK_WIDTH) == 0xF,
        window(INDEX_SHIFT, INDEX_WIDTH) == 0xF0,
        hold_bits(HoldField::SlotClaim) == 0x700,
        hold_bits(HoldField::SlotBorrow) == 0x3800,
        hold_bits(HoldField::PositionHold) == 0x1C000,
        hold_bits(HoldField::DropHold) == 0xE0000,
        hold_bits(HoldField::Touch) == 0x300000,
        hold_bits(HoldField::Server) == 0xC00000,
        window(STOCK_0_SHIFT, STOCK_0_WIDTH) == 0x3,
        window(STOCK_1_SHIFT, STOCK_1_WIDTH) == 0xC,
        low_bits(2) == 3,
        low_bits(3) == 7,
        low_bits(4) == 15,
        placement_bits() == 0xFF,
        all_hold_bits() == 0xFFFF00,
        state_bits() == 0x3E00_0000,
{
    assert(window(0, 4) == 0xF && window(4, 4) == 0xF0 && window(8, 3) == 0x700 && window(11, 3)
        == 0x3800 && window(14, 3) == 0x1C000 && window(17, 3) == 0xE0000 && window(20, 2)
        == 0x300000 && window(22, 2) == 0xC00000 && window(0, 2) == 0x3 && window(2, 2) == 0xC
        && low_bits(2) == 3 && low_bits(3) == 7 && low_bits(4) == 15) by (bit_vector);
    assert(0xFu32 | 0xF0u32 == 0xFFu32 && 0x300000u32 | 0x700u32 | 0x3800u32 | 0x1C000u32
        | 0xE0000u32 | 0xC00000u32 == 0xFFFF00u32 && (1u32 << 26u8) | (1u32 << 27u8) | (1u32
        << 28u8) | (1u32 << 25u8) | (1u32 << 29u8) == 0x3E00_0000u32) by (bit_vector);
}

/// Writing the placement fields: what they then hold, and what stays.
proof fn lemma_placement_write(flags: u32, stack: u32, index: u32)
    requires
        stack <= 15,
        index <= 15,
    ensures
        ({
            let f = (flags & !placement_bits()) | (stack << STACK_SHIFT) | (index << INDEX_SHIFT);
            &&& stack_value(f) == stack
            &&& index_value(f) == index
            &&& f & !placement_bits() == flags & !placement_bits()
        }),
        stack == 0 && index == 0 ==> (flags & !placement_bits()) | (stack << STACK_SHIFT) | (index
            << INDEX_SHIFT) == flags & !placement_bits(),
{
    lemma_windows();
    let f = (flags & !0xFFu32) | (stack << 0u8) | (index << 4u8);
    assert((f & 0xF) >> 0u8 == stack && (f & 0xF0) >> 4u8 == index && f & !0xFFu32 == flags
        & !0xFFu32 && (stack == 0 && index == 0 ==> f == flags & !0xFFu32)) by (bit_vector)
        requires
            stack <= 15,
            index <= 15,
            f == (flags & !0xFFu32) | (stack << 0u8) | (index << 4u8),
    ;
}

/// A word meets a union of masks iff it meets one of them.
proof fn lemma_union(word: u32, a: u32, b: u32)
    ensures
        word & (a | b) != 0 <==> word & a != 0 || word & b != 0,
{
    assert(word & (a | b) != 0 <==> word & a != 0 || word & b != 0) by (bit_vector);
}

/// A word meets the refcount bits iff some refcount is nonzero.
proof fn lemma_active_holds(flags: u32)
    ensures
        flags & all_hold_bits() != 0 <==> exists|field: HoldField| #[trigger]
            hold_value(flags, field) != 0,
{
    lemma_windows();
    assert(flags & 0xFFFF00 != 0 <==> (flags & 0x300000) >> 20u8 != 0 || (flags & 0x700) >> 8u8 != 0
        || (flags & 0x3800) >> 11u8 != 0 || (flags & 0x1C000) >> 14u8 != 0 || (flags & 0xE0000)
        >> 17u8 != 0 || (flags & 0xC00000) >> 22u8 != 0) by (bit_vector);
    if flags & all_hold_bits() != 0 {
        assert(hold_value(flags, HoldField::Touch) != 0 || hold_value(flags, HoldField::SlotClaim)
            != 0 || hold_value(flags, HoldField::SlotBorrow) != 0 || hold_value(
            flags,
            HoldField::PositionHold,
        ) != 0 || hold_value(flags, HoldField::DropHold) != 0 || hold_value(
            flags,
            HoldField::Server,
        ) != 0);
    }
}

/// Whether a placement fits its encoding: the branch leaves room for the loose
/// sentinel, the slot for its field, the cell and offsets for theirs.
pub open spec fn encodable(micro: Micro) -> bool {
    match micro {
        Micro::Stacked { branch, index, .. } => branch <= 14 && index <= 15,
        Micro::Loose { local_q, local_r, x, y } => local_q < 8 && local_r < 8 && -4096 <= x < 4096
            && -4096 <= y < 4096,
    }
}

/// The placement fields hold at most 15, so a branch is at most 14.
pub proof fn law_placement_fields_bounded(flags: u32)
    ensures
        stack_value(flags) <= 15,
        index_value(flags) <= 15,
        branch_value(flags) <= 14,
{
    lemma_windows();
    assert((flags & 0xF) >> 0u8 <= 15 && (flags & 0xF0) >> 4u8 <= 15) by (bit_vector);
}

/// Reading a placement back gives what was written, whatever else the word holds.
pub proof fn law_placement_round_trip(micro: Micro, before: u32, after: u32)
    requires
        encodable(micro),
        placement_written(micro, before, after),
    ensures
        micro_of(applied_location(micro), after) == micro,
{
    match micro {
        Micro::Stacked { .. } => {},
        Micro::Loose { local_q, local_r, x, y } => {
            crate::codec::packed::law_micro_loose_round_trip(local_q, local_r, x, y);
        },
    }
}

/// Reading a placement and writing it back leaves a stack member's row as it was.
pub proof fn law_stacked_write_back(micro_location: u32, before: u32, after: u32)
    requires
        stack_value(before) != 0,
        placement_written(micro_of(micro_location, before), before, after),
    ensures
        applied_location(micro_of(micro_location, before)) == micro_location,
        after == before,
{
    lemma_windows();
    assert(before & 0xFF == after & 0xFF) by {
        law_placement_fields_bounded(before);
        assert(before & 0xFF == after & 0xFF) by (bit_vector)
            requires
                (before & 0xF) >> 0u8 == (after & 0xF) >> 0u8,
                (before & 0xF0) >> 4u8 == (after & 0xF0) >> 4u8,
        ;
    }
    lemma_word_from_parts(before, after, 0xFF);
}

/// Writing a placement keeps every refcount and every bit from 8 up.
pub proof fn law_placement_keeps_state_and_holds(micro: Micro, before: u32, after: u32)
    requires
        placement_written(micro, before, after),
    ensures
        forall|field: HoldField| #[trigger] hold_value(after, field) == hold_value(before, field),
        forall|i: u8| 8 <= i < 32 ==> #[trigger] has_bit(after, i) == has_bit(before, i),
{
    lemma_windows();
    assert forall|field: HoldField| #[trigger]
        hold_value(after, field) == hold_value(before, field) by {
        lemma_hold_bits(field);
        lemma_disjoint(before, after, placement_bits(), hold_bits(field));
    }
    assert forall|i: u8| 8 <= i < 32 implies #[trigger] has_bit(after, i) == has_bit(before, i) by {
        assert(0xFFu32 & (1u32 << i) == 0) by (bit_vector)
            requires
                8 <= i < 32,
        ;
        lemma_disjoint(before, after, placement_bits(), 1u32 << i);
    }
}

/// The placement bits, the refcount bits and the state bits are pairwise disjoint.
pub proof fn law_masks_disjoint()
    ensures
        placement_bits() & state_bits() == 0,
        placement_bits() & all_hold_bits() == 0,
        state_bits() & all_hold_bits() == 0,
{
    lemma_windows();
    assert(0xFFu32 & 0x3E00_0000u32 == 0 && 0xFFu32 & 0xFFFF00u32 == 0 && 0x3E00_0000u32
        & 0xFFFF00u32 == 0) by (bit_vector);
}

/// Rewriting one refcount keeps every other refcount, the placement, and every
/// bit from 24 up.
pub proof fn law_holds_independent(field: HoldField, count: int, before: u32, after: u32)
    requires
        hold_written(field, count, before, after),
    ensures
        forall|other: HoldField|
            other != field ==> #[trigger] hold_value(after, other) == hold_value(before, other),
        stack_value(after) == stack_value(before),
        index_value(after) == index_value(before),
        forall|i: u8| 24 <= i < 32 ==> #[trigger] has_bit(after, i) == has_bit(before, i),
{
    lemma_windows();
    lemma_hold_bits(field);
    assert forall|other: HoldField| other != field implies #[trigger] hold_value(after, other)
        == hold_value(before, other) by {
        lemma_hold_bits(other);
        lemma_disjoint(before, after, hold_bits(field), hold_bits(other));
    }
    let bits = hold_bits(field);
    assert(bits & 0xF == 0 && bits & 0xF0 == 0) by (bit_vector)
        requires
            bits & 0xFF == 0,
    ;
    lemma_disjoint(before, after, bits, 0xF);
    lemma_disjoint(before, after, bits, 0xF0);
    assert forall|i: u8| 24 <= i < 32 implies #[trigger] has_bit(after, i) == has_bit(before, i) by {
        assert(bits & (1u32 << i) == 0) by (bit_vector)
            requires
                24 <= i < 32,
                bits & 0xFF00_0000 == 0,
        ;
        lemma_disjoint(before, after, bits, 1u32 << i);
    }
}

/// A release undoes the hold before it, unless the count was already full.
pub proof fn law_decrement_undoes_increment(field: HoldField, before: u32, held: u32, after: u32)
    requires
        hold_value(before, field) < hold_max(field),
        hold_written(field, hold_value(before, field) + 1, before, held),
        hold_written(field, hold_value(before, field) as int, held, after),
    ensures
        after == before,
{
    lemma_hold_bits(field);
    let bits = hold_bits(field);
    let shift = hold_shift(field);
    assert(before & bits == after & bits) by (bit_vector)
        requires
            (before & bits) >> shift == (after & bits) >> shift,
            (bits >> shift) << shift == bits,
            shift < 32,
    ;
    lemma_word_from_parts(before, after, bits);
}

/// Writing one stock slot keeps the other slot and the 28 card-only bits.
pub proof fn law_stock_slots_independent(before: u32, after: u32, slot: usize, other: usize)
    requires
        after & !window(stock_shift(slot), 2) == before & !window(stock_shift(slot), 2),
        slot % 2 != other % 2,
    ensures
        stock_value(after, other) == stock_value(before, other),
        after & !STOCK_ZONE_SAVE_MASK == before & !STOCK_ZONE_SAVE_MASK,
{
    lemma_windows();
    assert(0x3u32 & 0xCu32 == 0 && 0xCu32 & 0x3u32 == 0 && 0x3u32 & !0xFu32 == 0 && 0xCu32
        & !0xFu32 == 0) by (bit_vector);
    let bits = window(stock_shift(slot), 2);
    lemma_disjoint(before, after, bits, window(stock_shift(other), 2));
    lemma_disjoint(before, after, bits, !STOCK_ZONE_SAVE_MASK);
}

/// The name the registry lists a refcount field under.
pub open spec fn hold_name(field: HoldField) -> Seq<char> {
    match field {
        HoldField::Touch => "touch_count"@,
        HoldField::SlotClaim => "slot_claim_count"@,
        HoldField::SlotBorrow => "slot_borrow_count"@,
        HoldField::PositionHold => "position_hold_count"@,
        HoldField::DropHold => "drop_hold_count"@,
        HoldField::Server => "server_count"@,
    }
}

/// The windows and bits used here are those the registry declares by name.
pub proof fn law_layout_is_the_registry()
    ensures
        declared_field("flags"@, "stack"@) == Some(
            FlagField { shift: STACK_SHIFT, width: STACK_WIDTH },
        ),
        declared_field("flags"@, "index"@) == Some(
            FlagField { shift: INDEX_SHIFT, width: INDEX_WIDTH },
        ),
        forall|field: HoldField|
            declared_field("flags"@, #[trigger] hold_name(field)) == Some(
                FlagField { shift: hold_shift(field), width: hold_width(field) },
            ),
        declared_field("stock"@, "stock_0"@) == Some(FlagField { shift: stock_shift(0), width: 2 }),
        declared_field("stock"@, "stock_1"@) == Some(FlagField { shift: stock_shift(1), width: 2 }),
        declared_bit("flags"@, "dead"@) == Some(DEAD_BIT),
        declared_bit("flags"@, "pos_need"@) == Some(POS_NEED_BIT),
        declared_bit("flags"@, "pos_want"@) == Some(POS_WANT_BIT),
        declared_bit("flags"@, "surface_locked"@) == Some(SURFACE_LOCKED_BIT),
        declared_bit("flags"@, "zone_born"@) == Some(ZONE_BORN_BIT),
{
    reveal_strlit("flags");
    reveal_strlit("stock");
    reveal_strlit("stack");
    reveal_strlit("index");
    reveal_strlit("slot_claim_count");
    reveal_strlit("slot_borrow_count");
    reveal_strlit("position_hold_count");
    reveal_strlit("drop_hold_count");
    reveal_strlit("touch_count");
    reveal_strlit("server_count");
    reveal_strlit("stock_0");
    reveal_strlit("stock_1");
    reveal_strlit("player_owned");
    reveal_strlit("surface_locked");
    reveal_strlit("dead");
    reveal_strlit("pos_need");
    reveal_strlit("pos_want");
    reveal_strlit("zone_born");
    assert("flags"@[0] != "stock"@[0]);
    assert("stack"@[0] != "index"@[0]);
    assert("stock_0"@[6] != "stock_1"@[6]);
    assert("pos_need"@[4] != "pos_want"@[4]);
    assert("stack"@.len() == 5);
    assert("index"@.len() == 5);
    assert("slot_claim_count"@.len() == 16);
    assert("slot_borrow_count"@.len() == 17);
    assert("position_hold_count"@.len() == 19);
    assert("drop_hold_count"@.len() == 15);
    assert("touch_count"@.len() == 11);
    assert("server_count"@.len() == 12);
    assert("player_owned"@.len() == 12);
    assert("surface_locked"@.len() == 14);
    assert("dead"@.len() == 4);
    assert("pos_need"@.len() == 8);
    assert("pos_want"@.len() == 8);
    assert("zone_born"@.len() == 9);
    assert forall|field: HoldField| declared_field("flags"@, #[trigger] hold_name(field)) == Some(
        FlagField { shift: hold_shift(field), width: hold_width(field) },
    ) by {
        match field {
            HoldField::Touch => {},
            HoldField::SlotClaim => {},
            HoldField::SlotBorrow => {},
            HoldField::PositionHold => {},
            HoldField::DropHold => {},
            HoldField::Server => {},
        }
    }
}

/// The refcount fields' masks are pairwise disjoint, lie in bits 8-23, and start
/// at their shift.
proof fn lemma_hold_bits(field: HoldField)
    ensures
        hold_bits(field) & placement_bits() == 0,
        placement_bits() & hold_bits(field) == 0,
        hold_bits(field) & 0xFF == 0,
        hold_bits(field) & 0xFF00_0000 == 0,
        (hold_bits(field) >> hold_shift(field)) << hold_shift(field) == hold_bits(field),
        forall|other: HoldField|
            other != field ==> hold_bits(field) & #[trigger] hold_bits(other) == 0,
{
    lemma_windows();
    assert(forall|b: u32|
        b == 0x700 || b == 0x3800 || b == 0x1C000 || b == 0xE0000 || b == 0x300000 || b == 0xC00000
            ==> #[trigger] (b & 0xFFu32) == 0 && 0xFFu32 & b == 0 && b & 0xFF00_0000u32 == 0 && (b
            != 0x700 ==> b & 0x700u32 == 0) && (b != 0x3800 ==> b & 0x3800u32 == 0) && (b != 0x1C000
            ==> b & 0x1C000u32 == 0) && (b != 0xE0000 ==> b & 0xE0000u32 == 0) && (b != 0x300000
            ==> b & 0x300000u32 == 0) && (b != 0xC00000 ==> b & 0xC00000u32 == 0)) by (bit_vector);
    assert((0x700u32 >> 8u8) << 8u8 == 0x700u32 && (0x3800u32 >> 11u8) << 11u8 == 0x3800u32 && (
    0x1C000u32 >> 14u8) << 14u8 == 0x1C000u32 && (0xE0000u32 >> 17u8) << 17u8 == 0xE0000u32 && (
    0x300000u32 >> 20u8) << 20u8 == 0x300000u32 && (0xC00000u32 >> 22u8) << 22u8 == 0xC00000u32)
        by (bit_vector);
    assert(hold_bits(field) & 0xFFu32 == 0);
}

/// Words that agree outside one mask agree on every disjoint mask.
proof fn lemma_disjoint(a: u32, b: u32, changed: u32, kept: u32)
    requires
        b & !changed == a & !changed,
        changed & kept == 0,
    ensures
        b & kept == a & kept,
{
    assert(b & kept == a & kept) by (bit_vector)
        requires
            b & !changed == a & !changed,
            changed & kept == 0,
    ;
}

/// Words that agree on a mask and outside it are equal.
proof fn lemma_word_from_parts(a: u32, b: u32, mask: u32)
    requires
        a & mask == b & mask,
        a & !mask == b & !mask,
    ensures
        a == b,
{
    assert(a == b) by (bit_vector)
        requires
            a & mask == b & mask,
            a & !mask == b & !mask,
    ;
}

} // verus!
