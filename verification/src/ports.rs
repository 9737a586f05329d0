use vstd::prelude::*;
use crate::text::chars_of;

verus! {

/// Why a port or a `local:remote` pair was refused.
#[derive(Debug, Clone, Copy, PartialEq, Eq)]
pub enum PortsError {
    /// The text is not two parts separated by one colon.
    BadFormat,
    /// A port is empty.
    Empty,
    /// A port holds something other than decimal digits (after an optional `+`).
    InvalidDigit,
    /// A port is larger than 65535.
    TooLarge,
}

impl PortsError {
    /// The message shown to the user.
    pub open spec fn text(self) -> Seq<char> {
        match self {
            PortsError::BadFormat => "Port format must be local:remote (e.g. 8080:3000)"@,
            PortsError::Empty => "cannot parse integer from empty string"@,
            PortsError::InvalidDigit => "invalid digit found in string"@,
            PortsError::TooLarge => "number too large to fit in target type"@,
        }
    }

    /// The message shown to the user.
    pub fn message(&self) -> (m: String)
        ensures
            m@ == self.text(),
    {
        match self {
            PortsError::BadFormat => String::from_str("Port format must be local:remote (e.g. 8080:3000)"),
            PortsError::Empty => String::from_str("cannot parse integer from empty string"),
            PortsError::InvalidDigit => String::from_str("invalid digit found in string"),
            PortsError::TooLarge => String::from_str("number too large to fit in target type"),
        }
    }
}

/// A decimal digit.
pub open spec fn is_digit(c: char) -> bool {
    '0' <= c && c <= '9'
}

/// The value of a decimal digit.
pub open spec fn digit_value(c: char) -> int {
    c as int - '0' as int
}

/// The number that a string of decimal digits spells.
pub open spec fn digits_value(d: Seq<char>) -> int
    decreases d.len(),
{
    if d.len() == 0 {
        0
    } else {
        digits_value(d.drop_last()) * 10 + digit_value(d.last())
    }
}

/// The digits of a port: the text without one leading `+`.
pub open spec fn digits_part(s: Seq<char>) -> Seq<char> {
    if s.len() > 0 && s[0] == '+' {
        s.drop_first()
    } else {
        s
    }
}

/// The first `i` characters of `d` are digits, and the number they spell fits a port.
pub open spec fn fits_through(d: Seq<char>, i: int) -> bool {
    &&& 0 <= i <= d.len()
    &&& forall|j: int| 0 <= j < i ==> is_digit(#[trigger] d[j])
    &&& digits_value(d.take(i)) <= 65535
}

/// Position `f` is where reading `d` digit by digit first goes wrong.
pub open spec fn fails_at(d: Seq<char>, f: int) -> bool {
    &&& f < d.len()
    &&& fits_through(d, f)
    &&& !fits_through(d, f + 1)
}

/// What parsing `s` as a port (a `u16` in decimal) gives, as `str::parse` does:
/// an optional `+`, then at least one digit, and a value of at most 65535; the
/// first character that is not a digit, or that makes the value too large, decides the error.
pub open spec fn port_parse(s: Seq<char>) -> Result<u16, PortsError> {
    if s.len() == 0 {
        Err(PortsError::Empty)
    } else if s == seq!['+'] {
        Err(PortsError::InvalidDigit)
    } else {
        let d = digits_part(s);
        if fits_through(d, d.len() as int) {
            Ok(digits_value(d) as u16)
        } else {
            let f = choose|f: int| fails_at(d, f);
            if is_digit(d[f]) {
                Err(PortsError::TooLarge)
            } else {
                Err(PortsError::InvalidDigit)
            }
        }
    }
}

proof fn lemma_value_grows(d: Seq<char>, i: int, k: int)
    requires
        0 <= k <= i <= d.len(),
        forall|j: int| 0 <= j < i ==> is_digit(#[trigger] d[j]),
    ensures
        0 <= digits_value(d.take(k)) <= digits_value(d.take(i)),
    decreases i,
{
    if i > 0 {
        assert(d.take(i).drop_last() =~= d.take(i - 1));
        assert(is_digit(d[i - 1]));
        if k < i {
            lemma_value_grows(d, i - 1, k);
        } else {
            lemma_value_grows(d, i - 1, i - 1);
        }
    } else {
        assert(d.take(0) =~= Seq::<char>::empty());
    }
}

proof fn lemma_fits_shrink(d: Seq<char>, i: int, k: int)
    requires
        fits_through(d, i),
        0 <= k <= i,
    ensures
        fits_through(d, k),
{
    lemma_value_grows(d, i, k);
}

proof fn lemma_fail_unique(d: Seq<char>, f: int, g: int)
    requires
        fails_at(d, f),
        fails_at(d, g),
    ensures
        f == g,
{
    if f < g {
        lemma_fits_shrink(d, g, f + 1);
    } else if g < f {
        lemma_fits_shrink(d, f, g + 1);
    }
}

/// Parses a port number as `str::parse::<u16>` does.
pub fn parse_port(s: &str) -> (r: Result<u16, PortsError>)
    ensures
        r == port_parse(s@),
{
    let v = chars_of(s);
    if v.len() == 0 {
        return Err(PortsError::Empty);
    }
    if v.len() == 1 && v[0] == '+' {
        proof {
            assert(s@ =~= seq!['+']);
        }
        return Err(PortsError::InvalidDigit);
    }
    let start: usize = if v[0] == '+' { 1 } else { 0 };
    let ghost d = digits_part(s@);
    proof {
        assert(d =~= v@.skip(start as int));
        assert(s@ != seq!['+']);
        assert(d.take(0) =~= Seq::<char>::empty());
    }
    let mut acc: u32 = 0;
    let mut i: usize = start;
    while i < v.len()
        invariant
            v@ == s@,
            s@.len() > 0,
            s@ != seq!['+'],
            d == digits_part(s@),
            start <= i <= v.len(),
            d == v@.skip(start as int),
            fits_through(d, i - start),
            acc as int == digits_value(d.take(i - start)),
        decreases v.len() - i,
    {
        let c = v[i];
        let ghost at = i - start;
        assert(d[at] == c);
        if !('0' <= c && c <= '9') {
            proof {
                assert(fails_at(d, at));
                let f = choose|f: int| fails_at(d, f);
                lemma_fail_unique(d, f, at);
                if fits_through(d, d.len() as int) {
                    lemma_fits_shrink(d, d.len() as int, at + 1);
                }
            }
            return Err(PortsError::InvalidDigit);
        }
        let next: u32 = acc * 10 + ((c as u32) - ('0' as u32));
        proof {
            assert(d.take(at + 1).drop_last() =~= d.take(at));
            assert(d.take(at + 1).last() == c);
        }
        if next > 65535 {
            proof {
                assert(fails_at(d, at));
                let f = choose|f: int| fails_at(d, f);
                lemma_fail_unique(d, f, at);
                if fits_through(d, d.len() as int) {
                    lemma_fits_shrink(d, d.len() as int, at + 1);
                }
            }
            return Err(PortsError::TooLarge);
        }
        acc = next;
        i = i + 1;
    }
    proof {
        assert(d.take(d.len() as int) =~= d);
    }
    Ok(acc as u16)
}

/// `s` holds exactly one colon, at position `p`.
pub open spec fn one_colon_at(s: Seq<char>, p: int) -> bool {
    &&& 0 <= p < s.len()
    &&& s[p] == ':'
    &&& forall|i: int| 0 <= i < s.len() && i != p ==> #[trigger] s[i] != ':'
}

/// What reading `local:remote` gives: two ports, the local one read first; refused
/// unless the text splits at a colon into exactly two parts.
pub open spec fn tunnel_ports(s: Seq<char>) -> Result<(u16, u16), PortsError> {
    if exists|p: int| one_colon_at(s, p) {
        let p = choose|p: int| one_colon_at(s, p);
        match port_parse(s.take(p)) {
            Err(e) => Err(e),
            Ok(local) => match port_parse(s.skip(p + 1)) {
                Err(e) => Err(e),
                Ok(remote) => Ok((local, remote)),
            },
        }
    } else {
        Err(PortsError::BadFormat)
    }
}

/// Reads a `local:remote` port pair.
pub fn parse_tunnel_ports(ports: &str) -> (r: Result<(u16, u16), PortsError>)
    ensures
        r == tunnel_ports(ports@),
{
    let v = chars_of(ports);
    let mut count: usize = 0;
    let mut pos: usize = 0;
    let mut i: usize = 0;
    while i < v.len()
        invariant
            v@ == ports@,
            i <= v.len(),
            count <= i,
            count == 0 ==> forall|j: int| 0 <= j < i ==> #[trigger] v@[j] != ':',
            count == 1 ==> pos < i && v@[pos as int] == ':' && forall|j: int|
                0 <= j < i && j != pos ==> #[trigger] v@[j] != ':',
            count >= 2 ==> pos < i && v@[pos as int] == ':' && exists|j: int|
                0 <= j < i && j != pos && #[trigger] v@[j] == ':',
        decreases v.len() - i,
    {
        if v[i] == ':' {
            if count == 0 {
                pos = i;
            } else {
                proof {
                    assert(v@[i as int] == ':');
                }
            }
            if count < 2 {
                count = count + 1;
            }
        }
        i = i + 1;
    }
    if count != 1 {
        proof {
            assert forall|p: int| !one_colon_at(ports@, p) by {
                if one_colon_at(ports@, p) {
                    if count >= 2 {
                        let j = choose|j: int| 0 <= j < i && j != pos && #[trigger] v@[j] == ':';
                    }
                }
            }
        }
        return Err(PortsError::BadFormat);
    }
    proof {
        assert(one_colon_at(ports@, pos as int));
        let p = choose|p: int| one_colon_at(ports@, p);
        assert(p == pos);
    }
    let local_text = ports.substring_char(0, pos);
    let remote_text = ports.substring_char(pos + 1, v.len());
    proof {
        assert(local_text@ =~= ports@.take(pos as int));
        assert(remote_text@ =~= ports@.skip(pos + 1));
    }
    let local = match parse_port(local_text) {
        Ok(n) => n,
        Err(e) => return Err(e),
    };
    match parse_port(remote_text) {
        Ok(remote) => Ok((local, remote)),
        Err(e) => Err(e),
    }
}

} // verus!
