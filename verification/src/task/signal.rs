//! Signals.

use vstd::prelude::*;

verus! {

/// Signal bit: interrupted
pub const SIGINT: u32 = 4;
/// Signal bit: illegal instruction
pub const SIGILL: u32 = 16;
/// Signal bit: aborted
pub const SIGABRT: u32 = 64;
/// Signal bit: erroneous arithmetic operation
pub const SIGFPE: u32 = 256;
/// Signal bit: segmentation fault
pub const SIGSEGV: u32 = 2048;

/// The bits of all known signals.
pub open spec fn known_signals() -> u32 {
    SIGINT | SIGILL | SIGABRT | SIGFPE | SIGSEGV
}

/// A set of pending signals
#[derive(Clone, Copy, Debug, PartialEq, Eq, Structural)]
pub struct SignalFlags {
    bits: u32,
}

impl SignalFlags {
    /// Only known signal bits are set.
    #[verifier::type_invariant]
    spec fn only_known(self) -> bool {
        self.bits & !known_signals() == 0
    }

    /// The bits of the set.
    pub closed spec fn value(self) -> u32 {
        self.bits
    }

    /// No signal
    pub fn empty() -> (s: Self)
        ensures
            s.value() == 0,
    {
        assert(0u32 & !(4u32 | 16u32 | 64u32 | 256u32 | 2048u32) == 0) by (bit_vector);
        SignalFlags { bits: 0 }
    }

    /// The set with the bits `bits`, if they are all known signals
    pub fn from_bits(bits: u32) -> (s: Option<Self>)
        ensures
            s.is_some() == (bits & !known_signals() == 0),
            s matches Some(f) ==> f.value() == bits,
    {
        if bits & !(SIGINT | SIGILL | SIGABRT | SIGFPE | SIGSEGV) == 0 {
            Some(SignalFlags { bits })
        } else {
            None
        }
    }

    /// The bits of the set
    pub fn bits(&self) -> (b: u32)
        ensures
            b == self.value(),
    {
        self.bits
    }

    /// Whether every signal of `other` is in the set
    pub fn contains(&self, other: u32) -> (b: bool)
        ensures
            b == (self.value() & other == other),
    {
        self.bits & other == other
    }

    /// Add the signals of `other`
    pub fn insert(&mut self, other: Self)
        ensures
            final(self).value() == old(self).value() | other.value(),
    {
        proof {
            use_type_invariant(&*self);
            use_type_invariant(&other);
        }
        let a = self.bits;
        let b = other.bits;
        assert((a | b) & !(4u32 | 16u32 | 64u32 | 256u32 | 2048u32) == 0) by (bit_vector)
            requires
                a & !(4u32 | 16u32 | 64u32 | 256u32 | 2048u32) == 0,
                b & !(4u32 | 16u32 | 64u32 | 256u32 | 2048u32) == 0,
        ;
        self.bits = a | b;
    }

    /// The exit code and message of the first pending error signal, in the
    /// order SIGINT, SIGILL, SIGABRT, SIGFPE, SIGSEGV, if any is pending.
    pub open spec fn check_error_spec(self) -> Option<(i32, &'static str)> {
        if self.value() & SIGINT == SIGINT {
            Some((-2i32, "Killed, SIGINT=2"))
        } else if self.value() & SIGILL == SIGILL {
            Some((-4i32, "Illegal Instruction, SIGILL=4"))
        } else if self.value() & SIGABRT == SIGABRT {
            Some((-6i32, "Aborted, SIGABRT=6"))
        } else if self.value() & SIGFPE == SIGFPE {
            Some((-8i32, "Erroneous Arithmetic Operation, SIGFPE=8"))
        } else if self.value() & SIGSEGV == SIGSEGV {
            Some((-11i32, "Segmentation Fault, SIGSEGV=11"))
        } else {
            None::<(i32, &'static str)>
        }
    }

    /// The exit code and message of the first pending error signal, in the
    /// order SIGINT, SIGILL, SIGABRT, SIGFPE, SIGSEGV, if any is pending
    pub fn check_error(self) -> (r: Option<(i32, &'static str)>)
        ensures
            r == self.check_error_spec(),
    {
        if self.contains(SIGINT) {
            Some((-2, "Killed, SIGINT=2"))
        } else if self.contains(SIGILL) {
            Some((-4, "Illegal Instruction, SIGILL=4"))
        } else if self.contains(SIGABRT) {
            Some((-6, "Aborted, SIGABRT=6"))
        } else if self.contains(SIGFPE) {
            Some((-8, "Erroneous Arithmetic Operation, SIGFPE=8"))
        } else if self.contains(SIGSEGV) {
            Some((-11, "Segmentation Fault, SIGSEGV=11"))
        } else {
            None
        }
    }
}

/// A process ends on its pending signals exactly when an error signal is
/// among them (bits 4, 16, 64, 256, 2048: SIGINT, SIGILL, SIGABRT, SIGFPE,
/// SIGSEGV), with minus the number of the first of them in that order that
/// is pending as exit code: -2, -4, -6, -8, -11.
pub proof fn lemma_check_error(s: SignalFlags)
    ensures
        s.check_error_spec() is None <==> s.value() & 2388u32 == 0,
        s.value() & 4u32 != 0 ==> (s.check_error_spec() is Some && (s.check_error_spec()->0).0 == -2),
        s.value() & 4u32 == 0 && s.value() & 16u32 != 0 ==> (s.check_error_spec() is Some && (s.check_error_spec()->0).0 == -4),
        s.value() & 20u32 == 0 && s.value() & 64u32 != 0 ==> (s.check_error_spec() is Some && (s.check_error_spec()->0).0 == -6),
        s.value() & 84u32 == 0 && s.value() & 256u32 != 0 ==> (s.check_error_spec() is Some && (s.check_error_spec()->0).0 == -8),
        s.value() & 340u32 == 0 && s.value() & 2048u32 != 0 ==> (s.check_error_spec() is Some && (s.check_error_spec()->0).0 == -11),
{
    let v = s.value();
    assert({
        &&& (v & 4u32 == 4u32 <==> v & 4u32 != 0)
        &&& (v & 16u32 == 16u32 <==> v & 16u32 != 0)
        &&& (v & 64u32 == 64u32 <==> v & 64u32 != 0)
        &&& (v & 256u32 == 256u32 <==> v & 256u32 != 0)
        &&& (v & 2048u32 == 2048u32 <==> v & 2048u32 != 0)
        &&& (v & 20u32 == 0 <==> v & 4u32 == 0 && v & 16u32 == 0)
        &&& (v & 84u32 == 0 <==> v & 20u32 == 0 && v & 64u32 == 0)
        &&& (v & 340u32 == 0 <==> v & 84u32 == 0 && v & 256u32 == 0)
        &&& (v & 2388u32 == 0 <==> v & 340u32 == 0 && v & 2048u32 == 0)
    }) by (bit_vector);
}

} // verus!
