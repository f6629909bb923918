//! A ready-made label type: a few tags and one length-carrying variant.
use vstd::prelude::*;
use vstd::string::StringExecFns;
use crate::label::{EnumStructVal, Label, NoPayload};
use crate::text::{decimal, decimal_of};

verus! {

/// Benchmark labels.
#[derive(Debug, Clone, Copy, PartialEq, Eq, Structural, Hash, PartialOrd, Ord)]
pub enum Lbl {
    Alc,
    Arr,
    Vct,
    Mcr,
    Rsz,
    Len(u32),
}

impl Default for Lbl {
    fn default() -> (r: Lbl)
        ensures
            r == Lbl::Alc,
    {
        Lbl::Alc
    }
}

impl Lbl {
    /// The variant tag, in declaration order.
    pub open spec fn tag(self) -> u32 {
        match self {
            Lbl::Alc => 0,
            Lbl::Arr => 1,
            Lbl::Vct => 2,
            Lbl::Mcr => 3,
            Lbl::Rsz => 4,
            Lbl::Len(_) => 5,
        }
    }

    /// The kind's name.
    pub open spec fn tag_name(self) -> Seq<char> {
        match self {
            Lbl::Alc => "alc"@,
            Lbl::Arr => "arr"@,
            Lbl::Vct => "vct"@,
            Lbl::Mcr => "mcr"@,
            Lbl::Rsz => "rsz"@,
            Lbl::Len(_) => "len"@,
        }
    }
}

impl EnumStructVal for Lbl {
    open spec fn payload(&self) -> Option<u32> {
        match *self {
            Lbl::Len(x) => Some(x),
            _ => None,
        }
    }

    fn val(&self) -> (r: Result<u32, NoPayload>) {
        match *self {
            Lbl::Len(x) => Ok(x),
            _ => Err(NoPayload),
        }
    }
}

impl Label for Lbl {
    /// Tags order first, then the length: the order of declaration.
    open spec fn rank(&self) -> u64 {
        match *self {
            Lbl::Len(x) => (5 * 0x1_0000_0000 + x) as u64,
            _ => (self.tag() * 0x1_0000_0000) as u64,
        }
    }

    open spec fn kind_of(&self) -> u32 {
        self.tag()
    }

    open spec fn shown(&self) -> Seq<char> {
        match *self {
            Lbl::Len(x) => "len("@ + decimal_of(x as nat) + ")"@,
            _ => self.tag_name(),
        }
    }

    open spec fn shown_kind(&self) -> Seq<char> {
        self.tag_name()
    }

    proof fn lemma_rank_injective(a: Self, b: Self) {
    }

    fn key(&self) -> (r: u64) {
        match *self {
            Lbl::Alc => 0,
            Lbl::Arr => 0x1_0000_0000,
            Lbl::Vct => 2 * 0x1_0000_0000,
            Lbl::Mcr => 3 * 0x1_0000_0000,
            Lbl::Rsz => 4 * 0x1_0000_0000,
            Lbl::Len(x) => 5 * 0x1_0000_0000 + x as u64,
        }
    }

    fn kind(&self) -> (r: u32) {
        match *self {
            Lbl::Alc => 0,
            Lbl::Arr => 1,
            Lbl::Vct => 2,
            Lbl::Mcr => 3,
            Lbl::Rsz => 4,
            Lbl::Len(_) => 5,
        }
    }

    fn text(&self) -> (r: String) {
        match *self {
            Lbl::Len(x) => {
                let mut s = String::from_str("len(");
                let d = decimal(x as u128);
                s.append(d.as_str());
                s.append(")");
                s
            },
            _ => self.kind_text(),
        }
    }

    fn kind_text(&self) -> (r: String) {
        match *self {
            Lbl::Alc => String::from_str("alc"),
            Lbl::Arr => String::from_str("arr"),
            Lbl::Vct => String::from_str("vct"),
            Lbl::Mcr => String::from_str("mcr"),
            Lbl::Rsz => String::from_str("rsz"),
            Lbl::Len(_) => String::from_str("len"),
        }
    }
}

} // verus!
