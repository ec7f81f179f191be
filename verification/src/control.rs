//! The control-plane command grammar. A processor sends one UTF-8 command
//! per read on the admission port: `connect <decimal port>` to register,
//! `disconnect` to deregister its host; anything else is answered with
//! `invalid command`.

use vstd::prelude::*;
use crate::codec::lemma_take_prefix;

verus! {

/// The decimal digit characters.
pub open spec fn digit_char(d: int) -> char {
    if d == 0 {
        '0'
    } else if d == 1 {
        '1'
    } else if d == 2 {
        '2'
    } else if d == 3 {
        '3'
    } else if d == 4 {
        '4'
    } else if d == 5 {
        '5'
    } else if d == 6 {
        '6'
    } else if d == 7 {
        '7'
    } else if d == 8 {
        '8'
    } else {
        '9'
    }
}

/// The decimal rendering of a number, as characters, most significant first.
pub open spec fn dec_chars(n: nat) -> Seq<char>
    decreases n,
{
    if n < 10 {
        seq![digit_char(n as int)]
    } else {
        dec_chars(n / 10).push(digit_char((n % 10) as int))
    }
}

/// The decimal rendering of a number, as ASCII bytes.
pub open spec fn dec_bytes(n: nat) -> Seq<u8>
    decreases n,
{
    if n < 10 {
        seq![(48 + n) as u8]
    } else {
        dec_bytes(n / 10).push((48 + n % 10) as u8)
    }
}

pub open spec fn is_digit_byte(b: u8) -> bool {
    48 <= b <= 57
}

pub open spec fn all_digits(s: Seq<u8>) -> bool {
    forall|i: int| 0 <= i < s.len() ==> is_digit_byte(#[trigger] s[i])
}

/// The number an all-digit byte string spells.
pub open spec fn dec_value(s: Seq<u8>) -> int
    decreases s.len(),
{
    if s.len() == 0 {
        0
    } else {
        dec_value(s.drop_last()) * 10 + (s.last() - 48)
    }
}

/// The eight bytes `connect ` (with the trailing space).
pub open spec fn connect_prefix() -> Seq<u8> {
    seq![99u8, 111u8, 110u8, 110u8, 101u8, 99u8, 116u8, 32u8]
}

/// The ten bytes `disconnect`.
pub open spec fn disconnect_bytes() -> Seq<u8> {
    seq![100u8, 105u8, 115u8, 99u8, 111u8, 110u8, 110u8, 101u8, 99u8, 116u8]
}

/// The fifteen bytes `invalid command`.
pub open spec fn invalid_response() -> Seq<u8> {
    seq![
        105u8,
        110u8,
        118u8,
        97u8,
        108u8,
        105u8,
        100u8,
        32u8,
        99u8,
        111u8,
        109u8,
        109u8,
        97u8,
        110u8,
        100u8,
    ]
}

/// One admission command, parsed.
#[derive(Debug, Clone, Copy, PartialEq, Eq, Structural)]
pub enum Command {
    /// `connect <port>`: register the sender's ingress port.
    Connect(u16),
    /// `disconnect`: deregister every entry of the sender's host.
    Disconnect,
    /// Anything else: answer `invalid command` and keep reading.
    Invalid,
}

/// A well-formed `connect` command: the prefix, then one or more decimal
/// digits spelling a port number.
pub open spec fn valid_connect(s: Seq<u8>) -> bool {
    &&& s.len() > 8
    &&& s.subrange(0, 8) == connect_prefix()
    &&& all_digits(s.skip(8))
    &&& dec_value(s.skip(8)) <= 65535
}

/// What one received buffer means.
pub open spec fn spec_command(s: Seq<u8>) -> Command {
    if s == disconnect_bytes() {
        Command::Disconnect
    } else if valid_connect(s) {
        Command::Connect(dec_value(s.skip(8)) as u16)
    } else {
        Command::Invalid
    }
}

proof fn lemma_dec_value_nonneg(s: Seq<u8>)
    requires
        all_digits(s),
    ensures
        dec_value(s) >= 0,
    decreases s.len(),
{
    if s.len() > 0 {
        assert(all_digits(s.drop_last())) by {
            assert(forall|i: int| 0 <= i < s.len() - 1 ==> s.drop_last()[i] == s[i]);
        }
        lemma_dec_value_nonneg(s.drop_last());
    }
}

/// Appending digits never shrinks the value a digit string spells.
proof fn lemma_dec_value_take(s: Seq<u8>, k: int)
    requires
        all_digits(s),
        0 <= k <= s.len(),
    ensures
        dec_value(s.take(k)) <= dec_value(s),
    decreases s.len() - k,
{
    if k == s.len() {
        assert(s.take(k) =~= s);
    } else {
        assert(all_digits(s.take(k))) by {
            assert(forall|i: int| 0 <= i < k ==> s.take(k)[i] == s[i]);
        }
        lemma_dec_value_nonneg(s.take(k));
        assert(s.take(k + 1).drop_last() =~= s.take(k));
        assert(s.take(k + 1).last() == s[k]);
        assert(dec_value(s.take(k + 1)) == dec_value(s.take(k)) * 10 + (s[k] - 48));
        lemma_dec_value_take(s, k + 1);
    }
}

fn byte_at(data: &[u8], i: usize) -> (r: u8)
    requires
        i < data@.len(),
    ensures
        r == data@[i as int],
{
    *vstd::slice::slice_index_get(data, i)
}

/// Parses one received command buffer, byte for byte.
pub fn parse_command(buf: &[u8]) -> (r: Command)
    ensures
        r == spec_command(buf@),
{
    let len = buf.len();
    // `disconnect`, exactly.
    if len == 10 {
        let dis = byte_at(buf, 0) == 100u8 && byte_at(buf, 1) == 105u8 && byte_at(buf, 2) == 115u8
            && byte_at(buf, 3) == 99u8 && byte_at(buf, 4) == 111u8 && byte_at(buf, 5) == 110u8
            && byte_at(buf, 6) == 110u8 && byte_at(buf, 7) == 101u8 && byte_at(buf, 8) == 99u8
            && byte_at(buf, 9) == 116u8;
        if dis {
            proof {
                assert(buf@ =~= disconnect_bytes());
            }
            return Command::Disconnect;
        }
    }
    proof {
        assert(buf@ != disconnect_bytes()) by {
            if buf@ == disconnect_bytes() {
                assert(buf@[0] == 100u8 && buf@[1] == 105u8 && buf@[2] == 115u8 && buf@[3] == 99u8
                    && buf@[4] == 111u8 && buf@[5] == 110u8 && buf@[6] == 110u8 && buf@[7]
                    == 101u8 && buf@[8] == 99u8 && buf@[9] == 116u8);
            }
        }
    }
    // `connect <digits>`.
    if len < 9 {
        return Command::Invalid;
    }
    let pre = byte_at(buf, 0) == 99u8 && byte_at(buf, 1) == 111u8 && byte_at(buf, 2) == 110u8
        && byte_at(buf, 3) == 110u8 && byte_at(buf, 4) == 101u8 && byte_at(buf, 5) == 99u8
        && byte_at(buf, 6) == 116u8 && byte_at(buf, 7) == 32u8;
    if !pre {
        proof {
            assert(!valid_connect(buf@)) by {
                if valid_connect(buf@) {
                    assert(forall|i: int| 0 <= i < 8 ==> buf@.subrange(0, 8)[i] == buf@[i]);
                }
            }
        }
        return Command::Invalid;
    }
    proof {
        assert(buf@.subrange(0, 8) =~= connect_prefix());
    }
    let mut acc: u32 = 0;
    let mut i: usize = 8;
    while i < len
        invariant
            8 <= i <= len,
            len == buf@.len(),
            acc <= 65535,
            all_digits(buf@.subrange(8, i as int)),
            acc == dec_value(buf@.subrange(8, i as int)),
            buf@ != disconnect_bytes(),
            buf@.subrange(0, 8) == connect_prefix(),
        decreases len - i,
    {
        let b = byte_at(buf, i);
        if b < 48u8 || b > 57u8 {
            proof {
                assert(!valid_connect(buf@)) by {
                    if valid_connect(buf@) {
                        assert(buf@.skip(8)[i - 8] == buf@[i as int]);
                        assert(is_digit_byte(buf@[i as int]));
                    }
                }
            }
            return Command::Invalid;
        }
        let next: u32 = acc * 10 + (b - 48u8) as u32;
        proof {
            assert(buf@.subrange(8, i + 1).drop_last() =~= buf@.subrange(8, i as int));
            assert(buf@.subrange(8, i + 1).last() == buf@[i as int]);
        }
        if next > 65535u32 {
            proof {
                assert(!valid_connect(buf@)) by {
                    if valid_connect(buf@) {
                        assert(buf@.skip(8) =~= buf@.subrange(8, len as int));
                        lemma_dec_value_take(buf@.subrange(8, len as int), i + 1 - 8);
                        assert(buf@.subrange(8, len as int).take(i + 1 - 8) =~= buf@.subrange(
                            8,
                            i + 1,
                        ));
                    }
                }
            }
            return Command::Invalid;
        }
        acc = next;
        i = i + 1;
    }
    proof {
        assert(buf@.skip(8) =~= buf@.subrange(8, len as int));
        assert(buf@.subrange(8, i as int) =~= buf@.skip(8));
        assert(valid_connect(buf@));
    }
    Command::Connect(acc as u16)
}

/// Every rendered decimal is made of digits and spells the number back.
proof fn lemma_dec_bytes_digits(n: nat)
    ensures
        all_digits(dec_bytes(n)),
        dec_value(dec_bytes(n)) == n,
        dec_bytes(n).len() >= 1,
    decreases n,
{
    if n < 10 {
        assert(dec_bytes(n).drop_last() =~= Seq::<u8>::empty());
        assert(dec_value(Seq::<u8>::empty()) == 0);
        assert(dec_bytes(n).last() == (48 + n) as u8);
        assert((48 + n) as u8 == 48 + n as int);
    } else {
        lemma_dec_bytes_digits(n / 10);
        vstd::arithmetic::div_mod::lemma_fundamental_div_mod(n as int, 10);
        assert(dec_bytes(n).drop_last() =~= dec_bytes(n / 10));
        assert(dec_bytes(n).last() == (48 + n % 10) as u8);
        assert((48 + n % 10) as u8 == 48 + (n % 10) as int);
        assert(dec_value(dec_bytes(n)) == dec_value(dec_bytes(n / 10)) * 10 + (n % 10));
        assert(dec_bytes(n).last() == (48 + n % 10) as u8);
        assert(forall|i: int| 0 <= i < dec_bytes(n / 10).len() ==> dec_bytes(n)[i] == dec_bytes(
            n / 10,
        )[i]);
    }
}

fn push_dec(out: &mut Vec<u8>, n: u16)
    ensures
        final(out)@ == old(out)@ + dec_bytes(n as nat),
    decreases n,
{
    if n < 10 {
        out.push(48u8 + n as u8);
        proof {
            assert(out@ =~= old(out)@ + dec_bytes(n as nat));
        }
    } else {
        push_dec(out, n / 10);
        out.push(48u8 + (n % 10) as u8);
        proof {
            assert(out@ =~= old(out)@ + dec_bytes(n as nat));
        }
    }
}

/// Builds the registration command a processor sends on startup, and the
/// admission listener is guaranteed to read it back as the same port.
pub fn connect_command(port: u16) -> (r: Vec<u8>)
    ensures
        r@ == connect_prefix() + dec_bytes(port as nat),
        spec_command(r@) == Command::Connect(port),
{
    let mut out: Vec<u8> = Vec::new();
    out.push(99u8);
    out.push(111u8);
    out.push(110u8);
    out.push(110u8);
    out.push(101u8);
    out.push(99u8);
    out.push(116u8);
    out.push(32u8);
    proof {
        assert(out@ =~= connect_prefix());
    }
    push_dec(&mut out, port);
    proof {
        lemma_dec_bytes_digits(port as nat);
        assert(out@.subrange(0, out@.len() as int) =~= out@);
        lemma_take_prefix(out@, 0, out@.len() as int, connect_prefix(), dec_bytes(port as nat));
        assert(out@.subrange(0, 8) == connect_prefix());
        assert(out@.skip(8) =~= out@.subrange(8, out@.len() as int));
        assert(out@.skip(8) == dec_bytes(port as nat));
        assert(out@ != disconnect_bytes()) by {
            if out@ == disconnect_bytes() {
                assert(out@[0] == 100u8);
                assert(connect_prefix()[0] == 99u8);
                assert(out@.subrange(0, 8)[0] == out@[0]);
            }
        }
        assert(valid_connect(out@));
    }
    out
}

/// The reply written back on an unrecognized command.
pub fn invalid_reply() -> (r: Vec<u8>)
    ensures
        r@ == invalid_response(),
{
    let mut out: Vec<u8> = Vec::new();
    out.push(105u8);
    out.push(110u8);
    out.push(118u8);
    out.push(97u8);
    out.push(108u8);
    out.push(105u8);
    out.push(100u8);
    out.push(32u8);
    out.push(99u8);
    out.push(111u8);
    out.push(109u8);
    out.push(109u8);
    out.push(97u8);
    out.push(110u8);
    out.push(100u8);
    proof {
        assert(out@ =~= invalid_response());
    }
    out
}

fn digit_str(d: u16) -> (r: &'static str)
    requires
        d < 10,
    ensures
        r@ == seq![digit_char(d as int)],
{
    proof {
        reveal_strlit("0");
        reveal_strlit("1");
        reveal_strlit("2");
        reveal_strlit("3");
        reveal_strlit("4");
        reveal_strlit("5");
        reveal_strlit("6");
        reveal_strlit("7");
        reveal_strlit("8");
        reveal_strlit("9");
    }
    if d == 0 {
        proof {
            assert("0"@ =~= seq![digit_char(0)]);
        }
        "0"
    } else if d == 1 {
        proof {
            assert("1"@ =~= seq![digit_char(1)]);
        }
        "1"
    } else if d == 2 {
        proof {
            assert("2"@ =~= seq![digit_char(2)]);
        }
        "2"
    } else if d == 3 {
        proof {
            assert("3"@ =~= seq![digit_char(3)]);
        }
        "3"
    } else if d == 4 {
        proof {
            assert("4"@ =~= seq![digit_char(4)]);
        }
        "4"
    } else if d == 5 {
        proof {
            assert("5"@ =~= seq![digit_char(5)]);
        }
        "5"
    } else if d == 6 {
        proof {
            assert("6"@ =~= seq![digit_char(6)]);
        }
        "6"
    } else if d == 7 {
        proof {
            assert("7"@ =~= seq![digit_char(7)]);
        }
        "7"
    } else if d == 8 {
        proof {
            assert("8"@ =~= seq![digit_char(8)]);
        }
        "8"
    } else {
        proof {
            assert("9"@ =~= seq![digit_char(9)]);
        }
        "9"
    }
}

/// The decimal rendering of a port number as a string.
pub fn port_string(port: u16) -> (r: String)
    ensures
        r@ == dec_chars(port as nat),
    decreases port,
{
    if port < 10 {
        String::from_str(digit_str(port))
    } else {
        let mut s = port_string(port / 10);
        s.append(digit_str(port % 10));
        s
    }
}

} // verus!
