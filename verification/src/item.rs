use vstd::prelude::*;
use crate::dates::{add_months, months_after, MAX_MONTHS, MAX_TIMESTAMP};
use crate::text::{lower_of, lowercase};

verus! {

/// A catalog entry: a title with a total and an available copy count.
pub struct LiItem {
    pub title: String,
    pub author: Option<String>,
    pub year: u32,
    pub edition: String,
    pub desc: String,
    pub format: String,
    pub id: u32,
    pub copies: u32,
    pub avail_copies: u32,
    pub ratings: u32,
}

/// A checkout record: the snapshot of an item handed to a member, carrying
/// the title and id as they were at issuance, the renewal factor derived
/// from the item's format, and a due date (seconds since the Unix epoch).
pub struct LiItemInstance {
    pub title: String,
    pub id: u32,
    pub renew_factor: u32,
    pub due_date: i64,
    pub notice: bool,
}

/// How many months a checkout of an item with this format advances the due
/// date: "book" gives one month, "movie" two, anything else zero, the
/// format tag compared without regard to case.
pub open spec fn spec_renewal_factor(format: Seq<char>) -> u32 {
    if lower_of(format) == "book"@ {
        1
    } else if lower_of(format) == "movie"@ {
        2
    } else {
        0
    }
}

/// Derives the renewal factor from an item's format tag.
pub fn renewal_factor(format: &str) -> (r: u32)
    ensures
        r == spec_renewal_factor(format@),
        r <= 2,
{
    let lowered = lowercase(format);
    if lowered == "book".to_owned() {
        1
    } else if lowered == "movie".to_owned() {
        2
    } else {
        0
    }
}

impl Clone for LiItem {
    fn clone(&self) -> (r: Self)
        ensures
            r == *self,
    {
        LiItem {
            title: self.title.clone(),
            author: match &self.author {
                Some(a) => Some(a.clone()),
                None => None,
            },
            year: self.year,
            edition: self.edition.clone(),
            desc: self.desc.clone(),
            format: self.format.clone(),
            id: self.id,
            copies: self.copies,
            avail_copies: self.avail_copies,
            ratings: self.ratings,
        }
    }
}

impl LiItem {
    /// Takes one available copy and builds the checkout record for it:
    /// the record's due date is the issuance time advanced by the
    /// format-derived renewal factor, so a format with factor zero leaves
    /// the due date at the issuance time itself.
    pub fn create_instance(&mut self, issued_at: i64) -> (inst: LiItemInstance)
        requires
            old(self).avail_copies > 0,
            0 <= issued_at <= MAX_TIMESTAMP,
        ensures
            *final(self) == (LiItem { avail_copies: (old(self).avail_copies - 1) as u32, ..*old(self) }),
            inst == (LiItemInstance {
                title: old(self).title,
                id: old(self).id,
                renew_factor: spec_renewal_factor(old(self).format@),
                due_date: months_after(issued_at, spec_renewal_factor(old(self).format@)),
                notice: false,
            }),
            spec_renewal_factor(old(self).format@) == 0 ==> inst.due_date == issued_at,
    {
        self.avail_copies -= 1;

        let mut inst = LiItemInstance {
            title: self.title.clone(),
            id: self.id,
            renew_factor: renewal_factor(self.format.as_str()),
            due_date: issued_at,
            notice: false,
        };

        inst.renew();

        inst
    }
}

impl LiItemInstance {
    /// Pushes the due date forward by the record's renewal factor, in
    /// calendar months.
    pub fn renew(&mut self)
        requires
            0 <= old(self).due_date <= MAX_TIMESTAMP,
            old(self).renew_factor <= MAX_MONTHS,
        ensures
            *final(self) == (LiItemInstance {
                due_date: months_after(old(self).due_date, old(self).renew_factor),
                ..*old(self)
            }),
            old(self).renew_factor == 0 ==> final(self).due_date == old(self).due_date,
    {
        self.due_date = add_months(self.due_date, self.renew_factor);
    }
}

} // verus!
