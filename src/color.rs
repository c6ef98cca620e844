use vstd::prelude::*;
use vstd::string::StringSliceAdditionalSpecFns;

verus! {

/// One colour channel.
pub type Value = u8;

/// A colour with 8-bit channels.
#[derive(Clone, Copy, Debug, PartialEq, Eq, Structural)]
pub struct Rgb {
    pub red: Value,
    pub green: Value,
    pub blue: Value,
}

/// The value of one hexadecimal digit, either case.
pub open spec fn hex_digit(b: u8) -> Option<int> {
    if 48 <= b <= 57 {
        Some(b - 48)
    } else if 97 <= b <= 102 {
        Some(b - 87)
    } else if 65 <= b <= 70 {
        Some(b - 55)
    } else {
        None
    }
}

/// A two-character base-16 number: two digits, or `+` and one digit.
pub open spec fn hex_pair(a: u8, b: u8) -> Option<int> {
    if a == 43u8 {
        hex_digit(b)
    } else if hex_digit(a) is Some && hex_digit(b) is Some {
        Some(hex_digit(a).unwrap() * 16 + hex_digit(b).unwrap())
    } else {
        None
    }
}

/// `s` without its leading `#` characters.
pub open spec fn trim_hashes(s: Seq<u8>) -> Seq<u8>
    decreases s.len(),
{
    if s.len() > 0 && s[0] == 35u8 {
        trim_hashes(s.drop_first())
    } else {
        s
    }
}

/// The colour that the text `#RRGGBB` or `RRGGBB` names: leading `#`s are dropped,
/// the first six characters read as three base-16 pairs, and the rest ignored.
pub open spec fn rgb_of_hex(s: Seq<u8>) -> Option<Rgb> {
    let t = trim_hashes(s);
    if t.len() >= 6 && hex_pair(t[0], t[1]) is Some && hex_pair(t[2], t[3]) is Some
        && hex_pair(t[4], t[5]) is Some {
        Some(
            Rgb {
                red: hex_pair(t[0], t[1]).unwrap() as u8,
                green: hex_pair(t[2], t[3]).unwrap() as u8,
                blue: hex_pair(t[4], t[5]).unwrap() as u8,
            },
        )
    } else {
        None
    }
}

fn parse_hex_digit(b: u8) -> (r: Option<u8>)
    ensures
        r.is_some() <==> hex_digit(b) is Some,
        r.is_some() ==> r.unwrap() as int == hex_digit(b).unwrap(),
{
    if 48u8 <= b && b <= 57u8 {
        Some(b - 48)
    } else if 97u8 <= b && b <= 102u8 {
        Some(b - 87)
    } else if 65u8 <= b && b <= 70u8 {
        Some(b - 55)
    } else {
        None
    }
}

fn parse_hex_pair(a: u8, b: u8) -> (r: Option<u8>)
    ensures
        r.is_some() <==> hex_pair(a, b) is Some,
        r.is_some() ==> r.unwrap() as int == hex_pair(a, b).unwrap(),
{
    if a == 43u8 {
        return parse_hex_digit(b);
    }
    match (parse_hex_digit(a), parse_hex_digit(b)) {
        (Some(h), Some(l)) => Some(h * 16 + l),
        _ => None,
    }
}

impl Rgb {
    /// Creates a colour from a hexadecimal value like `#RRGGBB` or `RRGGBB`.
    pub fn from_hex(hex: &str) -> (r: Option<Self>)
        ensures
            r == rgb_of_hex(hex.spec_bytes()),
    {
        let bytes = hex.as_bytes();
        let len = bytes.len();
        let mut start: usize = 0;
        assert(bytes@.skip(0) =~= bytes@);
        while start < len && bytes[start] == 35u8
            invariant
                start <= len == bytes@.len(),
                trim_hashes(bytes@) == trim_hashes(bytes@.skip(start as int)),
            decreases len - start,
        {
            assert(bytes@.skip(start as int).drop_first() =~= bytes@.skip(start + 1));
            start = start + 1;
        }
        let ghost t = bytes@.skip(start as int);
        assert(trim_hashes(t) == t);
        if len - start < 6 {
            return None;
        }
        let red = match parse_hex_pair(bytes[start], bytes[start + 1]) {
            Some(v) => v,
            None => return None,
        };
        let green = match parse_hex_pair(bytes[start + 2], bytes[start + 3]) {
            Some(v) => v,
            None => return None,
        };
        let blue = match parse_hex_pair(bytes[start + 4], bytes[start + 5]) {
            Some(v) => v,
            None => return None,
        };
        Some(Rgb { red, green, blue })
    }
}

/// A non-empty list of colours to draw from.
pub struct Palette {
    colors: Vec<Rgb>,
}

impl View for Palette {
    type V = Seq<Rgb>;

    closed spec fn view(&self) -> Seq<Rgb> {
        self.colors@
    }
}

impl Palette {
    #[verifier::type_invariant]
    spec fn non_empty(&self) -> bool {
        self.colors@.len() > 0
    }

    /// A palette of the given colours; `None` where there are none.
    pub fn new(colors: Vec<Rgb>) -> (r: Option<Self>)
        ensures
            r.is_some() <==> colors@.len() > 0,
            r.is_some() ==> r.unwrap()@ == colors@,
    {
        if colors.len() == 0 {
            return None;
        }
        Some(Palette { colors })
    }

    /// The palette's colours, in the order given.
    pub fn colors(&self) -> (r: &[Rgb])
        ensures
            r@ == self@,
            r@.len() > 0,
    {
        proof {
            use_type_invariant(self);
        }
        self.colors.as_slice()
    }
}

impl Clone for Palette {
    fn clone(&self) -> (r: Self)
        ensures
            r@ == self@,
    {
        proof {
            use_type_invariant(self);
        }
        let mut colors: Vec<Rgb> = Vec::new();
        let mut i: usize = 0;
        while i < self.colors.len()
            invariant
                i <= self.colors@.len(),
                colors@ == self.colors@.take(i as int),
            decreases self.colors@.len() - i,
        {
            colors.push(self.colors[i]);
            i = i + 1;
            assert(colors@ =~= self.colors@.take(i as int));
        }
        assert(colors@ =~= self.colors@);
        Palette { colors }
    }
}

} // verus!
