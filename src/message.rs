//! The message names of the protocol, as a closed set of variants with the
//! string tags that the wire carries.
use vstd::prelude::*;
use vstd::string::*;

verus! {

/// A message the protocol defines.
#[derive(Clone, Copy, Debug, PartialEq, Eq, Structural)]
pub enum Command {
    /// Device acknowledgement of an earlier frame with the same index.
    Acknowledge,
    /// Move to an absolute position: two little-endian 4-byte floats.
    Go,
    /// Power the stepper motors.
    MotorsOn,
    /// Unpower the stepper motors.
    MotorsOff,
    /// Move towards the stored origin.
    MoveTowardsOrigin,
    /// Store the current position as origin.
    SetOrigin,
    /// Set the pen-lift servo: one little-endian 4-byte pulse width.
    Servo,
}

/// The wire tag of each message.
pub open spec fn tag_of(c: Command) -> Seq<char> {
    match c {
        Command::Acknowledge => "ack"@,
        Command::Go => "go"@,
        Command::MotorsOn => "motorsOn"@,
        Command::MotorsOff => "motorsOff"@,
        Command::MoveTowardsOrigin => "moveTowardsOrigin"@,
        Command::SetOrigin => "setOrigin"@,
        Command::Servo => "servo"@,
    }
}

/// Whether two texts hold the same characters.
pub fn same_text(a: &str, b: &str) -> (r: bool)
    ensures
        r == (a@ == b@),
{
    let n = a.unicode_len();
    if n != b.unicode_len() {
        return false;
    }
    let mut k: usize = 0;
    while k < n
        invariant
            n == a@.len() == b@.len(),
            k <= n,
            forall|j: int| 0 <= j < k ==> a@[j] == b@[j],
        decreases n - k,
    {
        if a.get_char(k) != b.get_char(k) {
            return false;
        }
        k += 1;
    }
    assert(a@ =~= b@);
    true
}

impl Command {
    /// The tag that names this message on the wire.
    pub fn tag(&self) -> (r: &'static str)
        ensures
            r@ == tag_of(*self),
    {
        match self {
            Command::Acknowledge => "ack",
            Command::Go => "go",
            Command::MotorsOn => "motorsOn",
            Command::MotorsOff => "motorsOff",
            Command::MoveTowardsOrigin => "moveTowardsOrigin",
            Command::SetOrigin => "setOrigin",
            Command::Servo => "servo",
        }
    }

    /// The message that a wire tag names, if any.
    pub fn from_tag(s: &str) -> (r: Option<Command>)
        ensures
            r matches Some(c) ==> tag_of(c) == s@,
            r is None ==> forall|c: Command| tag_of(c) != s@,
    {
        let all = [
            Command::Acknowledge,
            Command::Go,
            Command::MotorsOn,
            Command::MotorsOff,
            Command::MoveTowardsOrigin,
            Command::SetOrigin,
            Command::Servo,
        ];
        let mut k: usize = 0;
        while k < 7
            invariant
                k <= 7,
                all@ == seq![
                    Command::Acknowledge,
                    Command::Go,
                    Command::MotorsOn,
                    Command::MotorsOff,
                    Command::MoveTowardsOrigin,
                    Command::SetOrigin,
                    Command::Servo,
                ],
                forall|j: int| 0 <= j < k ==> tag_of(all@[j]) != s@,
            decreases 7 - k,
        {
            let c = all[k];
            if same_text(c.tag(), s) {
                return Some(c);
            }
            k += 1;
        }
        proof {
            assert forall|c: Command| tag_of(c) != s@ by {
                match c {
                    Command::Acknowledge => assert(tag_of(all@[0]) != s@),
                    Command::Go => assert(tag_of(all@[1]) != s@),
                    Command::MotorsOn => assert(tag_of(all@[2]) != s@),
                    Command::MotorsOff => assert(tag_of(all@[3]) != s@),
                    Command::MoveTowardsOrigin => assert(tag_of(all@[4]) != s@),
                    Command::SetOrigin => assert(tag_of(all@[5]) != s@),
                    Command::Servo => assert(tag_of(all@[6]) != s@),
                }
            }
        }
        None
    }
}

} // verus!
