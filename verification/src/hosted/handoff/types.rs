//! What a handoff returns, and the ways it fails.

use crate::hosted::handoff::verdicts::Stamp;
use crate::ids::NodeId;
use crate::token::WriteToken;
use crate::watermarks::Watermarks;
use vstd::prelude::*;

verus! {

#[verifier::external_type_specification]
#[verifier::external_body]
pub struct ExIoError(std::io::Error);

/// What a completed handoff returns: the requester's evidence.
#[derive(Debug, Clone, PartialEq, Eq)]
pub struct HandoffReceipt {
    /// The leadership epoch the donor had adopted when it opened the
    /// snapshot.
    pub fence_epoch: u64,
    /// The host the donor believed held that epoch, if any.
    pub fence_host: Option<NodeId>,
    /// The watermarks the installed snapshot covers.
    pub covers: Watermarks,
}

/// Why a donor refused, as one byte on the wire.
#[derive(Debug, Clone, Copy, PartialEq, Eq, Structural, Hash)]
pub enum RefusalCode {
    /// The donor's own state does not cover what was asked for.
    NotCovered,
    /// The donor cannot serve a snapshot right now.
    Unavailable,
    /// The request did not name a group or write path this donor serves.
    BadRequest,
    /// The requester's protocol version is not one this donor speaks.
    Version,
}

impl RefusalCode {
    /// The byte a code occupies.
    pub open spec fn byte(self) -> u8 {
        match self {
            RefusalCode::NotCovered => 1,
            RefusalCode::Unavailable => 2,
            RefusalCode::BadRequest => 3,
            RefusalCode::Version => 4,
        }
    }

    /// The code a byte names.
    pub open spec fn of(byte: u8) -> Option<RefusalCode> {
        if byte == 1 {
            Some(RefusalCode::NotCovered)
        } else if byte == 2 {
            Some(RefusalCode::Unavailable)
        } else if byte == 3 {
            Some(RefusalCode::BadRequest)
        } else if byte == 4 {
            Some(RefusalCode::Version)
        } else {
            None
        }
    }

    /// The code in words.
    pub open spec fn text(self) -> Seq<char> {
        match self {
            RefusalCode::NotCovered => "donor does not cover the request"@,
            RefusalCode::Unavailable => "donor cannot serve a snapshot now"@,
            RefusalCode::BadRequest => "donor does not serve that group or write path"@,
            RefusalCode::Version => "donor does not speak that protocol version"@,
        }
    }

    /// The byte this code occupies in a refuse frame.
    #[must_use]
    pub fn code(self) -> (r: u8)
        ensures
            r == self.byte(),
    {
        match self {
            RefusalCode::NotCovered => 1,
            RefusalCode::Unavailable => 2,
            RefusalCode::BadRequest => 3,
            RefusalCode::Version => 4,
        }
    }

    /// The code that byte names, or `None` for a byte that names none.
    #[must_use]
    pub fn from_code(byte: u8) -> (r: Option<RefusalCode>)
        ensures
            r == RefusalCode::of(byte),
    {
        match byte {
            1 => Some(RefusalCode::NotCovered),
            2 => Some(RefusalCode::Unavailable),
            3 => Some(RefusalCode::BadRequest),
            4 => Some(RefusalCode::Version),
            _ => None,
        }
    }

    /// The code in words.
    pub fn message(self) -> (r: String)
        ensures
            r@ == self.text(),
    {
        match self {
            RefusalCode::NotCovered => "donor does not cover the request".to_owned(),
            RefusalCode::Unavailable => "donor cannot serve a snapshot now".to_owned(),
            RefusalCode::BadRequest => "donor does not serve that group or write path".to_owned(),
            RefusalCode::Version => "donor does not speak that protocol version".to_owned(),
        }
    }
}

/// A code's byte names that code, and a byte that names a code is its byte.
pub proof fn refusal_codes_read_back(code: RefusalCode, byte: u8)
    ensures
        RefusalCode::of(code.byte()) == Some(code),
        RefusalCode::of(byte) matches Some(named) ==> named.byte() == byte,
{
}

/// The refusals' bytes count from one, in the order they are declared; no
/// other byte names a refusal.
pub proof fn refusal_bytes_count_from_one(byte: u8)
    ensures
        RefusalCode::NotCovered.byte() == 1,
        RefusalCode::Unavailable.byte() == 2,
        RefusalCode::BadRequest.byte() == 3,
        RefusalCode::Version.byte() == 4,
        RefusalCode::of(byte) is Some <==> 1 <= byte <= 4,
{
}

/// How a handoff failed. None of these installs anything: a failed handoff
/// leaves the requester exactly as it was.
#[derive(Debug)]
pub enum HandoffError {
    /// The donor's fence stamp is provably behind the adopted one.
    StaleDonor {
        /// The epoch the donor stamped.
        donor_epoch: u64,
        /// The host the donor believed held that epoch.
        donor_host: Option<NodeId>,
        /// The epoch the requester has adopted.
        adopted_epoch: u64,
        /// The host the requester believes holds it.
        adopted_host: Option<NodeId>,
    },
    /// The donor does not cover what was asked for.
    NotCovered {
        /// What the donor does cover.
        have: Watermarks,
    },
    /// The donor refused before offering anything.
    Refused {
        /// Why.
        code: RefusalCode,
    },
    /// The stream ended, or the counts did not tally, before a whole snapshot
    /// had arrived.
    Truncated,
    /// The peer is not speaking this protocol, or speaks it out of order.
    Protocol(&'static str),
    /// The transport, the source or the sink failed.
    Io(std::io::Error),
}

/// A failure as plain values.
pub enum Failure {
    StaleDonor { donor: Stamp, adopted: Stamp },
    NotCovered { have: Map<Seq<char>, WriteToken> },
    Refused { code: RefusalCode },
    Truncated,
    Protocol { what: Seq<char> },
    Io,
}

impl View for HandoffError {
    type V = Failure;

    open spec fn view(&self) -> Failure {
        match *self {
            HandoffError::StaleDonor { donor_epoch, donor_host, adopted_epoch, adopted_host } =>
                Failure::StaleDonor {
                    donor: (donor_epoch, crate::hosted::handoff::wire::host_name(donor_host)),
                    adopted: (
                        adopted_epoch,
                        crate::hosted::handoff::wire::host_name(adopted_host),
                    ),
                },
            HandoffError::NotCovered { have } => Failure::NotCovered { have: have@ },
            HandoffError::Refused { code } => Failure::Refused { code },
            HandoffError::Truncated => Failure::Truncated,
            HandoffError::Protocol(what) => Failure::Protocol { what: what@ },
            HandoffError::Io(_) => Failure::Io,
        }
    }
}

impl HandoffError {
    /// What went wrong, in words. What an I/O error says of itself is the
    /// operating system's to word and is left out.
    pub open spec fn text(self) -> Seq<char> {
        match self {
            HandoffError::StaleDonor { donor_epoch, adopted_epoch, .. } =>
                "donor's fence (epoch "@ + crate::text::decimal(donor_epoch as nat)
                    + ") is behind the adopted one (epoch "@ + crate::text::decimal(
                    adopted_epoch as nat,
                ) + ")"@,
            HandoffError::NotCovered { have } => "donor covers only "@ + crate::text::decimal(
                have.records().len(),
            ) + " writers"@,
            HandoffError::Refused { code } => "handoff refused: "@ + code.text(),
            HandoffError::Truncated => "snapshot ended before it was whole"@,
            HandoffError::Protocol(what) => "handoff protocol error: "@ + what@,
            HandoffError::Io(_) => "handoff i/o error: "@,
        }
    }

    /// What went wrong, in words.
    pub fn message(&self) -> (r: String)
        ensures
            *self is Io ==> self.text().is_prefix_of(r@),
            !(*self is Io) ==> r@ == self.text(),
    {
        match self {
            HandoffError::StaleDonor { donor_epoch, adopted_epoch, .. } => {
                let mut out: String = "donor's fence (epoch ".to_owned();
                crate::text::put_decimal(&mut out, *donor_epoch);
                out.append(") is behind the adopted one (epoch ");
                crate::text::put_decimal(&mut out, *adopted_epoch);
                out.append(")");
                out
            },
            HandoffError::NotCovered { have } => {
                let mut out: String = "donor covers only ".to_owned();
                crate::text::put_decimal(&mut out, have.len() as u64);
                out.append(" writers");
                out
            },
            HandoffError::Refused { code } => {
                let mut out: String = "handoff refused: ".to_owned();
                out.append(code.message().as_str());
                out
            },
            HandoffError::Truncated => "snapshot ended before it was whole".to_owned(),
            HandoffError::Protocol(what) => {
                let mut out: String = "handoff protocol error: ".to_owned();
                out.append(what);
                out
            },
            HandoffError::Io(err) => {
                let mut out: String = "handoff i/o error: ".to_owned();
                out.append(io_text(err).as_str());
                proof {
                    assert(out@.subrange(0, self.text().len() as int) =~= self.text());
                }
                out
            },
        }
    }

    /// The I/O error behind this one, when there is one.
    pub fn source(&self) -> (r: Option<&std::io::Error>)
        ensures
            match *self {
                HandoffError::Io(err) => r == Some(&err),
                _ => r is None,
            },
    {
        match self {
            HandoffError::Io(err) => Some(err),
            _ => None,
        }
    }
}

/// `std::io::Error`'s own words, through its `to_string`. Nothing is claimed
/// of them: they depend on the operating system.
#[verifier::external_body]
fn io_text(err: &std::io::Error) -> (r: String) {
    err.to_string()
}

impl From<std::io::Error> for HandoffError {
    fn from(err: std::io::Error) -> (r: HandoffError) {
        HandoffError::Io(err)
    }
}

impl vstd::std_specs::convert::FromSpecImpl<std::io::Error> for HandoffError {
    open spec fn obeys_from_spec() -> bool {
        true
    }

    open spec fn from_spec(err: std::io::Error) -> HandoffError {
        HandoffError::Io(err)
    }
}

} // verus!
