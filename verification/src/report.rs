//! The reports of the checks as text, one line for each thing that does not fit.

use crate::bucket::{BchAllocEntry, BchDataType};
use crate::gc_alloc_info::AllocIssue;
use crate::gc_check::{AllocChange, AllocLeak};
use crate::text::{decimal, push_decimal};
use vstd::prelude::*;
use vstd::string::StringExecFns;

verus! {

impl BchDataType {
    /// The name of a use.
    pub open spec fn name_view(self) -> Seq<char> {
        match self {
            BchDataType::Free => "Free"@,
            BchDataType::Sb => "Sb"@,
            BchDataType::Journal => "Journal"@,
            BchDataType::Btree => "Btree"@,
            BchDataType::User => "User"@,
            BchDataType::Cached => "Cached"@,
            BchDataType::Parity => "Parity"@,
            BchDataType::Stripe => "Stripe"@,
            BchDataType::NeedGcGens => "NeedGcGens"@,
            BchDataType::NeedDiscard => "NeedDiscard"@,
            BchDataType::Unstriped => "Unstriped"@,
        }
    }

    pub fn name(&self) -> (r: &'static str)
        ensures
            r@ == self.name_view(),
    {
        match self {
            BchDataType::Free => "Free",
            BchDataType::Sb => "Sb",
            BchDataType::Journal => "Journal",
            BchDataType::Btree => "Btree",
            BchDataType::User => "User",
            BchDataType::Cached => "Cached",
            BchDataType::Parity => "Parity",
            BchDataType::Stripe => "Stripe",
            BchDataType::NeedGcGens => "NeedGcGens",
            BchDataType::NeedDiscard => "NeedDiscard",
            BchDataType::Unstriped => "Unstriped",
        }
    }
}

/// A field of a record: its name and its number.
pub open spec fn field_text(name: Seq<char>, x: nat) -> Seq<char> {
    name + ": "@ + decimal(x)
}

fn push_field(text: &mut String, name: &str, x: u64)
    ensures
        final(text)@ == old(text)@ + field_text(name@, x as nat),
{
    let ghost before = text@;
    text.append(name);
    text.append(": ");
    push_decimal(text, x);
    assert(text@ =~= before + field_text(name@, x as nat));
}

/// A record as text.
pub open spec fn record_text(r: BchAllocEntry) -> Seq<char> {
    "BchAllocEntry { "@
        + field_text("journal_seq_nonempty"@, r.journal_seq_nonempty as nat) + ", "@
        + field_text("flags"@, r.flags as nat) + ", "@
        + field_text("gen"@, r.gen as nat) + ", "@
        + field_text("oldest_gen"@, r.oldest_gen as nat) + ", "@
        + field_text("data_type"@, r.data_type as nat) + ", "@
        + field_text("stripe_redundancy_obsolete"@, r.stripe_redundancy_obsolete as nat) + ", "@
        + field_text("dirty_sectors"@, r.dirty_sectors as nat) + ", "@
        + field_text("cached_sectors"@, r.cached_sectors as nat) + ", "@
        + "io_time: ["@ + decimal(r.io_time_read as nat) + ", "@
            + decimal(r.io_time_write as nat) + "]"@ + ", "@
        + field_text("stripe_refcount"@, r.stripe_refcount as nat) + ", "@
        + field_text("nr_external_backpointers"@, r.nr_external_backpointers as nat) + ", "@
        + field_text("journal_seq_empty"@, r.journal_seq_empty as nat) + ", "@
        + field_text("stripe_sectors"@, r.stripe_sectors as nat) + ", "@
        + field_text("pad"@, r.pad as nat)
        + " }"@
}

fn record_string(r: &BchAllocEntry) -> (text: String)
    ensures
        text@ == record_text(*r),
{
    let mut text: String = String::new();
    text.append("BchAllocEntry { ");
    assert(text@ =~= "BchAllocEntry { "@);
    push_field(&mut text, "journal_seq_nonempty", r.journal_seq_nonempty);
    text.append(", ");
    push_field(&mut text, "flags", r.flags as u64);
    text.append(", ");
    push_field(&mut text, "gen", r.gen as u64);
    text.append(", ");
    push_field(&mut text, "oldest_gen", r.oldest_gen as u64);
    text.append(", ");
    push_field(&mut text, "data_type", r.data_type as u64);
    text.append(", ");
    push_field(&mut text, "stripe_redundancy_obsolete", r.stripe_redundancy_obsolete as u64);
    text.append(", ");
    push_field(&mut text, "dirty_sectors", r.dirty_sectors as u64);
    text.append(", ");
    push_field(&mut text, "cached_sectors", r.cached_sectors as u64);
    text.append(", ");
    text.append("io_time: [");
    push_decimal(&mut text, r.io_time_read);
    text.append(", ");
    push_decimal(&mut text, r.io_time_write);
    text.append("]");
    text.append(", ");
    push_field(&mut text, "stripe_refcount", r.stripe_refcount as u64);
    text.append(", ");
    push_field(&mut text, "nr_external_backpointers", r.nr_external_backpointers as u64);
    text.append(", ");
    push_field(&mut text, "journal_seq_empty", r.journal_seq_empty);
    text.append(", ");
    push_field(&mut text, "stripe_sectors", r.stripe_sectors as u64);
    text.append(", ");
    push_field(&mut text, "pad", r.pad as u64);
    text.append(" }");
    text
}

/// A leak as a line of the report.
pub open spec fn leak_text(l: AllocLeak) -> Seq<char> {
    "device "@ + decimal(l.dev as nat) + " bucket "@ + decimal(l.bucket as nat) + " allocated ("@
        + l.state.name_view() + ") but not referenced by any extent"@
}

impl AllocLeak {
    pub fn text(&self) -> (r: String)
        ensures
            r@ == leak_text(*self),
    {
        let mut text: String = String::new();
        text.append("device ");
        push_decimal(&mut text, self.dev as u64);
        text.append(" bucket ");
        push_decimal(&mut text, self.bucket);
        text.append(" allocated (");
        text.append(self.state.name());
        text.append(") but not referenced by any extent");
        assert(text@ =~= leak_text(*self));
        text
    }
}

/// A change as a line of the report; where nothing changed there is none.
pub open spec fn change_text(c: AllocChange) -> Seq<char> {
    match (c.was, c.is) {
        (Some(a), Some(b)) => "device "@
            + decimal(c.dev as nat) + " bucket "@ + decimal(c.bucket as nat) + " changed from "@
            + a.name_view() + " to "@ + b.name_view(),
        (Some(a), None) => "device "@
            + decimal(c.dev as nat) + " bucket "@ + decimal(c.bucket as nat) + " was "@
            + a.name_view() + " but is now free/unreferenced"@,
        (None, Some(b)) => "device "@
            + decimal(c.dev as nat) + " bucket "@ + decimal(c.bucket as nat) + " is now "@
            + b.name_view() + " but was not previously allocated"@,
        (None, None) => Seq::empty(),
    }
}

impl AllocChange {
    pub fn text(&self) -> (r: String)
        ensures
            r@ == change_text(*self),
    {
        let mut text: String = String::new();
        match (self.was, self.is) {
            (Some(a), Some(b)) => {
                text.append("device ");
                push_decimal(&mut text, self.dev as u64);
                text.append(" bucket ");
                push_decimal(&mut text, self.bucket);
                text.append(" changed from ");
                text.append(a.name());
                text.append(" to ");
                text.append(b.name());
            },
            (Some(a), None) => {
                text.append("device ");
                push_decimal(&mut text, self.dev as u64);
                text.append(" bucket ");
                push_decimal(&mut text, self.bucket);
                text.append(" was ");
                text.append(a.name());
                text.append(" but is now free/unreferenced");
            },
            (None, Some(b)) => {
                text.append("device ");
                push_decimal(&mut text, self.dev as u64);
                text.append(" bucket ");
                push_decimal(&mut text, self.bucket);
                text.append(" is now ");
                text.append(b.name());
                text.append(" but was not previously allocated");
            },
            (None, None) => {},
        }
        assert(text@ =~= change_text(*self));
        text
    }
}

/// Something that does not fit as a line of the report. A generation is shown by its own number,
/// which stands in the top byte.
pub open spec fn issue_text(i: AllocIssue) -> Seq<char> {
    match i {
        AllocIssue::BadRecord { bucket } => "alloc key "@
            + decimal(bucket as nat) + " failed to deserialize"@,
        AllocIssue::Mismatch { dev, bucket, recorded, actual } => "alloc device "@
            + decimal(dev as nat) + " bucket "@ + decimal(bucket as nat) + " mismatch: alloc="@
            + record_text(recorded) + " allocator="@ + record_text(actual),
        AllocIssue::NoRecord { dev, bucket } => "missing alloc entry for device "@
            + decimal(dev as nat) + " bucket "@ + decimal(bucket as nat),
        AllocIssue::NoFreespace { dev, bucket, genbits } => "missing freespace entry for free device "@
            + decimal(dev as nat) + " bucket "@ + decimal(bucket as nat) + " genbits "@
            + decimal((genbits >> 56) as nat),
        AllocIssue::StaleFreespace { dev, bucket, genbits, expected } => "stale freespace entry for device "@
            + decimal(dev as nat) + " bucket "@ + decimal(bucket as nat) + " genbits "@
            + decimal((genbits >> 56) as nat) + " (expected "@ + decimal((expected >> 56) as nat)
            + ")"@,
        AllocIssue::FreespaceInUse { dev, bucket, genbits } => "stale freespace entry for allocated device "@
            + decimal(dev as nat) + " bucket "@ + decimal(bucket as nat) + " genbits "@
            + decimal((genbits >> 56) as nat),
        AllocIssue::NoBucket { dev, bucket, recorded } => "alloc entry device "@
            + decimal(dev as nat) + " bucket "@ + decimal(bucket as nat)
            + " references missing bucket "@ + record_text(recorded),
        AllocIssue::GenMismatch { dev, bucket, recorded_gen, actual_gen } => "device "@
            + decimal(dev as nat) + " bucket "@ + decimal(bucket as nat)
            + " gen mismatch: alloc btree gen="@ + decimal(recorded_gen as nat) + ", gens[]="@
            + decimal(actual_gen as nat),
    }
}

impl AllocIssue {
    pub fn text(&self) -> (r: String)
        ensures
            r@ == issue_text(*self),
    {
        let mut text: String = String::new();
        match *self {
            AllocIssue::BadRecord { bucket } => {
                text.append("alloc key ");
                push_decimal(&mut text, bucket);
                text.append(" failed to deserialize");
            },
            AllocIssue::Mismatch { dev, bucket, recorded, actual } => {
                text.append("alloc device ");
                push_decimal(&mut text, dev as u64);
                text.append(" bucket ");
                push_decimal(&mut text, bucket);
                text.append(" mismatch: alloc=");
                text.append(record_string(&recorded).as_str());
                text.append(" allocator=");
                text.append(record_string(&actual).as_str());
            },
            AllocIssue::NoRecord { dev, bucket } => {
                text.append("missing alloc entry for device ");
                push_decimal(&mut text, dev as u64);
                text.append(" bucket ");
                push_decimal(&mut text, bucket);
            },
            AllocIssue::NoFreespace { dev, bucket, genbits } => {
                text.append("missing freespace entry for free device ");
                push_decimal(&mut text, dev as u64);
                text.append(" bucket ");
                push_decimal(&mut text, bucket);
                text.append(" genbits ");
                push_decimal(&mut text, genbits >> 56);
            },
            AllocIssue::StaleFreespace { dev, bucket, genbits, expected } => {
                text.append("stale freespace entry for device ");
                push_decimal(&mut text, dev as u64);
                text.append(" bucket ");
                push_decimal(&mut text, bucket);
                text.append(" genbits ");
                push_decimal(&mut text, genbits >> 56);
                text.append(" (expected ");
                push_decimal(&mut text, expected >> 56);
                text.append(")");
            },
            AllocIssue::FreespaceInUse { dev, bucket, genbits } => {
                text.append("stale freespace entry for allocated device ");
                push_decimal(&mut text, dev as u64);
                text.append(" bucket ");
                push_decimal(&mut text, bucket);
                text.append(" genbits ");
                push_decimal(&mut text, genbits >> 56);
            },
            AllocIssue::NoBucket { dev, bucket, recorded } => {
                text.append("alloc entry device ");
                push_decimal(&mut text, dev as u64);
                text.append(" bucket ");
                push_decimal(&mut text, bucket);
                text.append(" references missing bucket ");
                text.append(record_string(&recorded).as_str());
            },
            AllocIssue::GenMismatch { dev, bucket, recorded_gen, actual_gen } => {
                text.append("device ");
                push_decimal(&mut text, dev as u64);
                text.append(" bucket ");
                push_decimal(&mut text, bucket);
                text.append(" gen mismatch: alloc btree gen=");
                push_decimal(&mut text, recorded_gen as u64);
                text.append(", gens[]=");
                push_decimal(&mut text, actual_gen as u64);
            },
        }
        assert(text@ =~= issue_text(*self));
        text
    }
}

} // verus!
