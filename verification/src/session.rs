//! Process-wide state shared by the daemon's event handlers: the shutdown
//! signal and the MIME types collected for a clipboard offer.

use vstd::prelude::*;
use crate::text::str_eq;

verus! {

/// Signal to coordinate graceful termination: once requested, it stays.
pub struct ExitSignal {
    requested: bool,
}

impl View for ExitSignal {
    type V = bool;

    closed spec fn view(&self) -> bool {
        self.requested
    }
}

impl ExitSignal {
    /// A signal with no termination requested.
    pub fn new() -> (r: ExitSignal)
        ensures
            !r@,
    {
        ExitSignal { requested: false }
    }
}

/// Sets the termination flag to initiate shutdown sequences.
pub fn request_exit(signal: &mut ExitSignal)
    ensures
        final(signal)@,
{
    signal.requested = true;
}

/// Checks the current state of the termination signal.
pub fn is_exiting(signal: &ExitSignal) -> (r: bool)
    ensures
        r == signal@,
{
    signal.requested
}

/// What an interrupt from the user asks for.
#[derive(Debug, Clone, Copy, PartialEq, Eq, Structural)]
pub enum InterruptAction {
    /// First interrupt: wrap up and close storage safely.
    Shutdown,
    /// Interrupt while already shutting down: terminate at once.
    ForceQuit,
}

/// Handles an interrupt: the first one requests termination, a later one
/// forces it.
pub fn on_interrupt(signal: &mut ExitSignal) -> (r: InterruptAction)
    ensures
        final(signal)@,
        r == (if old(signal)@ {
            InterruptAction::ForceQuit
        } else {
            InterruptAction::Shutdown
        }),
{
    if is_exiting(signal) {
        return InterruptAction::ForceQuit;
    }
    request_exit(signal);
    InterruptAction::Shutdown
}

pub open spec fn no_repeats(s: Seq<Seq<char>>) -> bool {
    forall|i: int, j: int| 0 <= i < j < s.len() ==> #[trigger] s[i] != #[trigger] s[j]
}

/// MIME types announced for a clipboard offer, each kept once, in the order
/// first announced.
pub struct OfferData {
    mimes: Vec<String>,
}

impl View for OfferData {
    type V = Seq<Seq<char>>;

    closed spec fn view(&self) -> Seq<Seq<char>> {
        Seq::new(self.mimes@.len(), |k: int| self.mimes@[k]@)
    }
}

impl OfferData {
    /// An offer with no MIME type announced yet.
    pub fn new() -> (r: OfferData)
        ensures
            r@ == Seq::<Seq<char>>::empty(),
    {
        let r = OfferData { mimes: Vec::new() };
        assert(r@ =~= Seq::<Seq<char>>::empty());
        r
    }

    /// Records an announced MIME type, unless it was announced before.
    pub fn record_offer(&mut self, mime: String)
        ensures
            old(self)@.contains(mime@) ==> final(self)@ == old(self)@,
            !old(self)@.contains(mime@) ==> final(self)@ == old(self)@.push(mime@),
    {
        let mut i: usize = 0;
        while i < self.mimes.len()
            invariant
                i <= self@.len(),
                forall|j: int| 0 <= j < i ==> #[trigger] self@[j] != mime@,
            decreases self@.len() - i,
        {
            if str_eq(self.mimes[i].as_str(), mime.as_str()) {
                assert(self@[i as int] == mime@);
                return;
            }
            i += 1;
        }
        let ghost before = self@;
        self.mimes.push(mime);
        assert(self@ =~= before.push(mime@));
    }

    /// The announced MIME types, in order.
    pub fn mimes(&self) -> (r: &[String])
        ensures
            Seq::new(r@.len(), |k: int| r@[k]@) == self@,
    {
        self.mimes.as_slice()
    }
}

/// An offer never lists a MIME type twice, whatever is announced.
pub proof fn law_offer_no_repeats(before: Seq<Seq<char>>, mime: Seq<char>)
    requires
        no_repeats(before),
    ensures
        no_repeats(if before.contains(mime) {
            before
        } else {
            before.push(mime)
        }),
{
    if !before.contains(mime) {
        let after = before.push(mime);
        assert forall|i: int, j: int| 0 <= i < j < after.len() implies #[trigger] after[i]
            != #[trigger] after[j] by {
            if j == before.len() {
                assert(after[i] == before[i]);
            } else {
                assert(after[i] == before[i] && after[j] == before[j]);
            }
        }
    }
}

} // verus!
