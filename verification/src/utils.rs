//! Assorted domain types and conversions: ticket codes, ballot numbers,
//! jurisdiction abbreviations, and header repair.

use vstd::arithmetic::div_mod::lemma_fundamental_div_mod;
use vstd::prelude::*;
use vstd::string::{StringExecFns, StringSliceAdditionalSpecFns};

verus! {

/// A count of candidates or a position on the ballot.
pub type BallotNumber = u32;

/// A ticket code string: A, B, ..., Z, AA, AB, ...
pub type TicketString = String;

/// The `r`-th letter of the alphabet, 0-based.
pub open spec fn letter_char(r: int) -> char {
    if r == 0 {
        'A'
    } else if r == 1 {
        'B'
    } else if r == 2 {
        'C'
    } else if r == 3 {
        'D'
    } else if r == 4 {
        'E'
    } else if r == 5 {
        'F'
    } else if r == 6 {
        'G'
    } else if r == 7 {
        'H'
    } else if r == 8 {
        'I'
    } else if r == 9 {
        'J'
    } else if r == 10 {
        'K'
    } else if r == 11 {
        'L'
    } else if r == 12 {
        'M'
    } else if r == 13 {
        'N'
    } else if r == 14 {
        'O'
    } else if r == 15 {
        'P'
    } else if r == 16 {
        'Q'
    } else if r == 17 {
        'R'
    } else if r == 18 {
        'S'
    } else if r == 19 {
        'T'
    } else if r == 20 {
        'U'
    } else if r == 21 {
        'V'
    } else if r == 22 {
        'W'
    } else if r == 23 {
        'X'
    } else if r == 24 {
        'Y'
    } else {
        'Z'
    }
}

fn letter_str(r: u32) -> (s: &'static str)
    requires
        r < 26,
    ensures
        s@ == seq![letter_char(r as int)],
{
    let s: &'static str = match r {
        0 => "A",
        1 => "B",
        2 => "C",
        3 => "D",
        4 => "E",
        5 => "F",
        6 => "G",
        7 => "H",
        8 => "I",
        9 => "J",
        10 => "K",
        11 => "L",
        12 => "M",
        13 => "N",
        14 => "O",
        15 => "P",
        16 => "Q",
        17 => "R",
        18 => "S",
        19 => "T",
        20 => "U",
        21 => "V",
        22 => "W",
        23 => "X",
        24 => "Y",
        _ => "Z",
    };
    proof {
        reveal_strlit("A");
        reveal_strlit("B");
        reveal_strlit("C");
        reveal_strlit("D");
        reveal_strlit("E");
        reveal_strlit("F");
        reveal_strlit("G");
        reveal_strlit("H");
        reveal_strlit("I");
        reveal_strlit("J");
        reveal_strlit("K");
        reveal_strlit("L");
        reveal_strlit("M");
        reveal_strlit("N");
        reveal_strlit("O");
        reveal_strlit("P");
        reveal_strlit("Q");
        reveal_strlit("R");
        reveal_strlit("S");
        reveal_strlit("T");
        reveal_strlit("U");
        reveal_strlit("V");
        reveal_strlit("W");
        reveal_strlit("X");
        reveal_strlit("Y");
        reveal_strlit("Z");
        assert(s@ =~= seq![letter_char(r as int)]);
    }
    s
}

/// The ticket code of a 1-based ticket number, as characters: bijective
/// base 26 without a zero digit.
pub open spec fn spec_ticket_chars(n: nat) -> Seq<char>
    decreases n,
{
    if n == 0 {
        Seq::<char>::empty()
    } else {
        spec_ticket_chars(((n - 1) as nat) / 26) + seq![letter_char(((((n - 1) as nat) % 26)) as int)]
    }
}

pub trait ToTicket {
    /// Convert a ticket number like 31 to its code like "AE".
    fn to_ticket(self) -> (r: TicketString)
        ensures
            r@ == spec_ticket_chars(self.ticket_number()),
    ;

    spec fn ticket_number(&self) -> nat;
}

impl ToTicket for BallotNumber {
    open spec fn ticket_number(&self) -> nat {
        *self as nat
    }

    fn to_ticket(self) -> (r: TicketString)
        decreases self,
    {
        if self == 0 {
            String::new()
        } else {
            let num: u32 = self - 1;
            let remainder: u32 = num % 26;
            let shift: u32 = num / 26;
            proof {
                lemma_fundamental_div_mod(num as int, 26);
            }
            let prefix: String = shift.to_ticket();
            prefix.concat(letter_str(remainder))
        }
    }
}

/// The 1-based ticket number a code denotes: each letter is a base-26
/// digit with A as 1, case-insensitively.
pub open spec fn spec_ticket_value(s: Seq<char>) -> nat
    decreases s.len(),
{
    if s.len() == 0 {
        0
    } else {
        spec_ticket_value(s.drop_last()) * 26 + spec_letter_value(s.last())
    }
}

pub open spec fn spec_letter_value(c: char) -> nat {
    if 97 <= c as int <= 122 {
        (c as int - 96) as nat
    } else if 65 <= c as int <= 90 {
        (c as int - 64) as nat
    } else {
        0
    }
}

/// Every character is an ASCII letter.
pub open spec fn all_letters(s: Seq<char>) -> bool {
    forall|i: int|
        0 <= i < s.len() ==> (65 <= (#[trigger] s[i]) as int <= 90 || 97 <= s[i] as int <= 122)
}

proof fn lemma_ticket_value_prefix(s: Seq<char>, i: int)
    requires
        all_letters(s),
        0 <= i <= s.len(),
    ensures
        spec_ticket_value(s.take(i)) <= spec_ticket_value(s),
    decreases s.len() - i,
{
    if i == s.len() {
        assert(s.take(i) =~= s);
    } else {
        lemma_ticket_value_prefix(s, i + 1);
        assert(s.take(i + 1).drop_last() =~= s.take(i));
        assert(s.take(i + 1).last() == s[i]);
        let v = spec_ticket_value(s.take(i));
        assert(v * 26 >= v) by (nonlinear_arith)
            requires
                v >= 0,
        ;
        assert(spec_letter_value(s[i]) >= 1);
    }
}

pub trait ToBallotNumber {
    spec fn number_chars(&self) -> Seq<char>;

    /// Convert a ticket code like "AE" to its number like 31.
    fn to_number(self) -> (r: BallotNumber)
        requires
            all_letters(self.number_chars()),
            vstd::utf8::is_ascii_chars(self.number_chars()),
            spec_ticket_value(self.number_chars()) <= u32::MAX,
        ensures
            r == spec_ticket_value(self.number_chars()),
    ;
}

fn str_to_number(s: &str) -> (r: BallotNumber)
    requires
        all_letters(s@),
        vstd::utf8::is_ascii_chars(s@),
        spec_ticket_value(s@) <= u32::MAX,
    ensures
        r == spec_ticket_value(s@),
{
    proof {
        vstd::string::is_ascii_spec_bytes(s);
    }
    let bytes: &[u8] = s.as_bytes();
    let mut acc: u32 = 0;
    let mut i: usize = 0;
    proof {
        assert(s@.take(0) =~= Seq::<char>::empty());
    }
    while i < bytes.len()
        invariant
            bytes@.len() == s@.len(),
            forall|t: int| 0 <= t < s@.len() ==> #[trigger] bytes@[t] == s@[t] as u8,
            all_letters(s@),
            spec_ticket_value(s@) <= u32::MAX,
            i <= s@.len(),
            acc == spec_ticket_value(s@.take(i as int)),
        decreases bytes@.len() - i,
    {
        let b: u8 = bytes[i];
        proof {
            lemma_ticket_value_prefix(s@, i + 1);
            assert(s@.take(i + 1).drop_last() =~= s@.take(i as int));
            assert(s@.take(i + 1).last() == s@[i as int]);
            assert(s@[i as int] as u8 == b);
            assert(65 <= s@[i as int] as int <= 90 || 97 <= s@[i as int] as int <= 122);
            assert(s@[i as int] as int == b as int);
        }
        let d: u32 = if b >= 97 {
            (b - 96) as u32
        } else {
            (b - 64) as u32
        };
        proof {
            assert(d == spec_letter_value(s@[i as int]));
        }
        acc = acc * 26 + d;
        i = i + 1;
    }
    proof {
        assert(s@.take(s@.len() as int) =~= s@);
    }
    acc
}

impl ToBallotNumber for String {
    open spec fn number_chars(&self) -> Seq<char> {
        self@
    }

    fn to_number(self) -> (r: BallotNumber) {
        str_to_number(self.as_str())
    }
}

impl ToBallotNumber for &str {
    open spec fn number_chars(&self) -> Seq<char> {
        self@
    }

    fn to_number(self) -> (r: BallotNumber) {
        str_to_number(self)
    }
}

/// One decimal digit as a character.
pub open spec fn digit_char(d: int) -> char {
    if d == 0 {
        '0'
    } else if d == 1 {
        '1'
    } else if d == 2 {
        '2'
    } else if d == 3 {
        '3'
    } else if d == 4 {
        '4'
    } else if d == 5 {
        '5'
    } else if d == 6 {
        '6'
    } else if d == 7 {
        '7'
    } else if d == 8 {
        '8'
    } else {
        '9'
    }
}

fn digit_str(d: u32) -> (s: &'static str)
    requires
        d < 10,
    ensures
        s@ == seq![digit_char(d as int)],
{
    let s: &'static str = match d {
        0 => "0",
        1 => "1",
        2 => "2",
        3 => "3",
        4 => "4",
        5 => "5",
        6 => "6",
        7 => "7",
        8 => "8",
        _ => "9",
    };
    proof {
        reveal_strlit("0");
        reveal_strlit("1");
        reveal_strlit("2");
        reveal_strlit("3");
        reveal_strlit("4");
        reveal_strlit("5");
        reveal_strlit("6");
        reveal_strlit("7");
        reveal_strlit("8");
        reveal_strlit("9");
        assert(s@ =~= seq![digit_char(d as int)]);
    }
    s
}

/// The decimal representation of a number, as characters.
pub open spec fn spec_dec_chars(n: nat) -> Seq<char>
    decreases n,
{
    if n < 10 {
        seq![digit_char(n as int)]
    } else {
        spec_dec_chars(n / 10) + seq![digit_char(n as int % 10)]
    }
}

/// Format a number in decimal.
pub fn u32_string(n: u32) -> (r: String)
    ensures
        r@ == spec_dec_chars(n as nat),
    decreases n,
{
    if n < 10 {
        let s: String = String::new();
        s.concat(digit_str(n))
    } else {
        proof {
            lemma_fundamental_div_mod(n as int, 10);
        }
        let q: u32 = n / 10;
        let rem: u32 = n % 10;
        let prefix: String = u32_string(q);
        prefix.concat(digit_str(rem))
    }
}

/// What `pretty_number` produces: small numbers in full, larger ones to
/// their leading thousands, millions or billions.
pub open spec fn spec_pretty(n: nat) -> Seq<char> {
    if n < 1000 {
        spec_dec_chars(n)
    } else if n >= 1000000000 {
        spec_dec_chars(n / 1000000000) + " billion"@
    } else if n >= 1000000 {
        spec_dec_chars(n / 1000000) + " million"@
    } else {
        spec_dec_chars(n / 1000) + " thousand"@
    }
}

pub trait PrettifyNumber {
    spec fn pretty_value(&self) -> nat;

    /// Display a count to a couple of significant figures with a scale
    /// word.
    fn pretty_number(self) -> (r: String)
        ensures
            r@ == spec_pretty(self.pretty_value()),
    ;
}

impl PrettifyNumber for BallotNumber {
    open spec fn pretty_value(&self) -> nat {
        *self as nat
    }

    fn pretty_number(self) -> (r: String) {
        if self < 1000 {
            u32_string(self)
        } else if self >= 1000000000 {
            u32_string(self / 1000000000).concat(" billion")
        } else if self >= 1000000 {
            u32_string(self / 1000000).concat(" million")
        } else {
            u32_string(self / 1000).concat(" thousand")
        }
    }
}

/// A state or territory of the Commonwealth.
#[derive(PartialEq, Eq, Structural, Debug, Clone, Copy)]
pub enum StateAb {
    ACT,
    NSW,
    NT,
    QLD,
    SA,
    TAS,
    VIC,
    WA,
}

/// A byte uppercased, ASCII-wise.
pub open spec fn upper_byte(b: u8) -> u8 {
    if 97 <= b <= 122 {
        (b - 32) as u8
    } else {
        b
    }
}

pub open spec fn upper_bytes(s: Seq<u8>) -> Seq<u8> {
    s.map_values(|b: u8| upper_byte(b))
}

/// Which state a name denotes, matched case-insensitively.
pub open spec fn spec_state_of(s: Seq<u8>) -> Option<StateAb> {
    let u = upper_bytes(s);
    if u == seq![65u8, 67u8, 84u8] {
        Some(StateAb::ACT)
    } else if u == seq![78u8, 83u8, 87u8] {
        Some(StateAb::NSW)
    } else if u == seq![78u8, 84u8] {
        Some(StateAb::NT)
    } else if u == seq![81u8, 76u8, 68u8] {
        Some(StateAb::QLD)
    } else if u == seq![83u8, 65u8] {
        Some(StateAb::SA)
    } else if u == seq![84u8, 65u8, 83u8] {
        Some(StateAb::TAS)
    } else if u == seq![86u8, 73u8, 67u8] {
        Some(StateAb::VIC)
    } else if u == seq![87u8, 65u8] {
        Some(StateAb::WA)
    } else {
        None
    }
}

/// The canonical (uppercase) name of a state.
pub open spec fn spec_state_name(s: StateAb) -> Seq<char> {
    match s {
        StateAb::ACT => "ACT"@,
        StateAb::NSW => "NSW"@,
        StateAb::NT => "NT"@,
        StateAb::QLD => "QLD"@,
        StateAb::SA => "SA"@,
        StateAb::TAS => "TAS"@,
        StateAb::VIC => "VIC"@,
        StateAb::WA => "WA"@,
    }
}

/// The canonical name of a state, as bytes.
pub open spec fn spec_state_bytes(s: StateAb) -> Seq<u8> {
    match s {
        StateAb::ACT => seq![65u8, 67u8, 84u8],
        StateAb::NSW => seq![78u8, 83u8, 87u8],
        StateAb::NT => seq![78u8, 84u8],
        StateAb::QLD => seq![81u8, 76u8, 68u8],
        StateAb::SA => seq![83u8, 65u8],
        StateAb::TAS => seq![84u8, 65u8, 83u8],
        StateAb::VIC => seq![86u8, 73u8, 67u8],
        StateAb::WA => seq![87u8, 65u8],
    }
}

impl StateAb {
    /// Parse a state name from bytes, case-insensitively.
    pub fn from_bytes(s: &[u8]) -> (r: Option<StateAb>)
        ensures
            r == spec_state_of(s@),
    {
        let mut up: Vec<u8> = Vec::new();
        let mut i: usize = 0;
        while i < s.len()
            invariant
                i <= s@.len(),
                up@ == upper_bytes(s@).take(i as int),
            decreases s@.len() - i,
        {
            let b: u8 = s[i];
            let ub: u8 = if b >= 97 && b <= 122 {
                b - 32
            } else {
                b
            };
            up.push(ub);
            proof {
                assert(up@ =~= upper_bytes(s@).take(i + 1));
            }
            i = i + 1;
        }
        proof {
            assert(up@ =~= upper_bytes(s@));
        }
        let n: usize = up.len();
        if n == 3 {
            let (a, b, c) = (up[0], up[1], up[2]);
            proof {
                assert(up@ =~= seq![up@[0], up@[1], up@[2]]);
            }
            if a == 65 && b == 67 && c == 84 {
                Some(StateAb::ACT)
            } else if a == 78 && b == 83 && c == 87 {
                Some(StateAb::NSW)
            } else if a == 81 && b == 76 && c == 68 {
                Some(StateAb::QLD)
            } else if a == 84 && b == 65 && c == 83 {
                Some(StateAb::TAS)
            } else if a == 86 && b == 73 && c == 67 {
                Some(StateAb::VIC)
            } else {
                None
            }
        } else if n == 2 {
            let (a, b) = (up[0], up[1]);
            proof {
                assert(up@ =~= seq![up@[0], up@[1]]);
            }
            if a == 78 && b == 84 {
                Some(StateAb::NT)
            } else if a == 83 && b == 65 {
                Some(StateAb::SA)
            } else if a == 87 && b == 65 {
                Some(StateAb::WA)
            } else {
                None
            }
        } else {
            None
        }
    }

    /// The state's display name.
    pub fn name(&self) -> (r: String)
        ensures
            r@ == spec_state_name(*self),
    {
        let s: &'static str = match self {
            StateAb::ACT => "ACT",
            StateAb::NSW => "NSW",
            StateAb::NT => "NT",
            StateAb::QLD => "QLD",
            StateAb::SA => "SA",
            StateAb::TAS => "TAS",
            StateAb::VIC => "VIC",
            StateAb::WA => "WA",
        };
        s.to_owned()
    }

    /// The state's display name, as bytes.
    pub fn name_bytes(&self) -> (r: Vec<u8>)
        ensures
            r@ == spec_state_bytes(*self),
    {
        let mut v: Vec<u8> = Vec::new();
        match self {
            StateAb::ACT => {
                v.push(65);
                v.push(67);
                v.push(84);
            },
            StateAb::NSW => {
                v.push(78);
                v.push(83);
                v.push(87);
            },
            StateAb::NT => {
                v.push(78);
                v.push(84);
            },
            StateAb::QLD => {
                v.push(81);
                v.push(76);
                v.push(68);
            },
            StateAb::SA => {
                v.push(83);
                v.push(65);
            },
            StateAb::TAS => {
                v.push(84);
                v.push(65);
                v.push(83);
            },
            StateAb::VIC => {
                v.push(86);
                v.push(73);
                v.push(67);
            },
            StateAb::WA => {
                v.push(87);
                v.push(65);
            },
        }
        proof {
            assert(v@ =~= spec_state_bytes(*self));
        }
        v
    }
}

pub trait ToStateAb {
    spec fn state_bytes(&self) -> Seq<u8>;

    /// Convert a name to its state, which must exist.
    fn to_state_ab(self) -> (r: StateAb)
        requires
            spec_state_of(self.state_bytes()) is Some,
        ensures
            Some(r) == spec_state_of(self.state_bytes()),
    ;
}

impl ToStateAb for &str {
    open spec fn state_bytes(&self) -> Seq<u8> {
        (*self).spec_bytes()
    }

    fn to_state_ab(self) -> (r: StateAb) {
        let o: Option<StateAb> = StateAb::from_bytes(self.as_bytes());
        o.unwrap()
    }
}

/// Whether a candidate stands for the House or the Senate.
#[derive(PartialEq, Eq, Structural, Debug, Clone, Copy)]
pub enum NominationType {
    H,
    S,
}

/// The nomination type a name's first letter denotes.
pub open spec fn spec_nomination_of(s: Seq<u8>) -> Option<NominationType> {
    if s.len() >= 1 && (s[0] == 72 || s[0] == 104) {
        Some(NominationType::H)
    } else if s.len() >= 1 && (s[0] == 83 || s[0] == 115) {
        Some(NominationType::S)
    } else {
        None
    }
}

pub trait ToNominationType {
    spec fn nomination_bytes(&self) -> Seq<u8>;

    /// Convert a name to a nomination type by its first letter, which
    /// must be H or S.
    fn to_nomination_type(self) -> (r: NominationType)
        requires
            spec_nomination_of(self.nomination_bytes()) is Some,
        ensures
            Some(r) == spec_nomination_of(self.nomination_bytes()),
    ;
}

impl ToNominationType for &str {
    open spec fn nomination_bytes(&self) -> Seq<u8> {
        (*self).spec_bytes()
    }

    fn to_nomination_type(self) -> (r: NominationType) {
        let b: &[u8] = self.as_bytes();
        if b[0] == 72 || b[0] == 104 {
            NominationType::H
        } else {
            NominationType::S
        }
    }
}

/// One candidate's details.
#[derive(Debug, Clone)]
pub struct Candidate {
    pub surname: String,
    pub ballot_given_nm: String,
    pub ballot_number: BallotNumber,
    pub party: String,
}

/// One row of the registered-parties file: the fields this system reads.
#[derive(Debug, Clone)]
pub struct PartyRecord {
    pub state_ab: StateAb,
    pub party_ab: String,
    pub registered_party_ab: String,
    pub party_nm: String,
}


/// The ticket code of a 1-based ticket number, as ASCII bytes.
pub open spec fn spec_ticket_bytes(n: nat) -> Seq<u8>
    decreases n,
{
    if n == 0 {
        Seq::<u8>::empty()
    } else {
        spec_ticket_bytes(((n - 1) as nat) / 26) + seq![(65 + ((n - 1) as nat) % 26) as u8]
    }
}

/// The ticket code of a ticket number, as bytes.
pub fn ticket_bytes(n: u32) -> (r: Vec<u8>)
    ensures
        r@ == spec_ticket_bytes(n as nat),
    decreases n,
{
    if n == 0 {
        Vec::new()
    } else {
        let num: u32 = n - 1;
        let remainder: u32 = num % 26;
        let shift: u32 = num / 26;
        proof {
            lemma_fundamental_div_mod(num as int, 26);
        }
        let mut r: Vec<u8> = ticket_bytes(shift);
        r.push((65 + remainder) as u8);
        proof {
            assert(r@ =~= spec_ticket_bytes(n as nat));
        }
        r
    }
}

/// `p` is a prefix of `s`.
pub open spec fn has_prefix(s: Seq<u8>, p: Seq<u8>) -> bool {
    p.len() <= s.len() && s.take(p.len() as int) == p
}

/// Does `s` start with `p`?
pub fn bytes_has_prefix(s: &Vec<u8>, p: &Vec<u8>) -> (r: bool)
    ensures
        r == has_prefix(s@, p@),
{
    if p.len() > s.len() {
        return false;
    }
    let mut i: usize = 0;
    while i < p.len()
        invariant
            p@.len() <= s@.len(),
            i <= p@.len(),
            forall|t: int| 0 <= t < i ==> s@[t] == p@[t],
        decreases p@.len() - i,
    {
        if s[i] != p[i] {
            proof {
                assert(s@.take(p@.len() as int)[i as int] != p@[i as int]);
            }
            return false;
        }
        i = i + 1;
    }
    proof {
        assert(s@.take(p@.len() as int) =~= p@);
    }
    true
}

/// One step of header repair: reset the ticket counter on an `A:` cell,
/// keep cells that start with the expected ticket code or `UG:`, and glue
/// any other cell back onto its predecessor with the comma that
/// unquoted splitting lost.
pub open spec fn fix_step(state: (Seq<Seq<u8>>, nat), c: Seq<u8>) -> (Seq<Seq<u8>>, nat) {
    let fixed = state.0;
    let idx = if has_prefix(c, seq![65u8, 58u8]) {
        1nat
    } else {
        state.1
    };
    if has_prefix(c, spec_ticket_bytes(idx) + seq![58u8]) || has_prefix(
        c,
        seq![85u8, 71u8, 58u8],
    ) {
        (fixed.push(c), idx + 1)
    } else if idx >= 1 && has_prefix(c, spec_ticket_bytes((idx - 1) as nat) + seq![58u8]) {
        (fixed.push(c), idx)
    } else {
        if fixed.len() == 0 {
            (fixed.push(seq![44u8] + c), idx)
        } else {
            (fixed.drop_last().push(fixed.last() + seq![44u8] + c), idx)
        }
    }
}

/// The repaired headers after folding the cells from `atl_start` up to
/// (exclusive) position `i`.
pub open spec fn spec_fix_headers(cells: Seq<Seq<u8>>, atl_start: int, i: int) -> (
    Seq<Seq<u8>>,
    nat,
)
    decreases i - atl_start,
{
    if i <= atl_start {
        (
            if atl_start <= cells.len() {
                cells.take(atl_start)
            } else {
                cells
            },
            0nat,
        )
    } else {
        fix_step(spec_fix_headers(cells, atl_start, i - 1), cells[i - 1])
    }
}

/// Repair a header row whose unquoted cells were split on embedded
/// commas, gluing broken cells back together.
pub fn fix_prefs_headers(prefs_headers_raw: &Vec<Vec<u8>>, atl_start: usize) -> (r: Vec<Vec<u8>>)
    requires
        prefs_headers_raw@.len() < 0xFFFF_FFFF,
    ensures
        crate::booths::byte_views(r@) == spec_fix_headers(
            prefs_headers_raw.deep_view(),
            atl_start as int,
            prefs_headers_raw.deep_view().len() as int,
        ).0,
{
    let ghost cells = prefs_headers_raw.deep_view();
    proof {
        assert(cells.len() == prefs_headers_raw@.len());
        assert(forall|t: int|
            0 <= t < cells.len() ==> cells[t] == #[trigger] prefs_headers_raw@[t]@);
    }
    let mut fixed: Vec<Vec<u8>> = Vec::new();
    let mut i: usize = 0;
    let copy_to: usize = if atl_start <= prefs_headers_raw.len() {
        atl_start
    } else {
        prefs_headers_raw.len()
    };
    while i < copy_to
        invariant
            copy_to <= cells.len(),
            cells.len() == prefs_headers_raw@.len(),
            forall|t: int| 0 <= t < cells.len() ==> cells[t] == #[trigger] prefs_headers_raw@[t]@,
            i <= copy_to,
            crate::booths::byte_views(fixed@) == cells.take(i as int),
        decreases copy_to - i,
    {
        let cell: Vec<u8> = copy_bytes(&prefs_headers_raw[i]);
        let ghost prev = fixed@;
        fixed.push(cell);
        proof {
            crate::booths::lemma_byte_views_push(prev, fixed@, cells[i as int]);
            assert(crate::booths::byte_views(prev).push(cells[i as int]) =~= cells.take(i + 1));
        }
        i = i + 1;
    }
    proof {
        if atl_start <= cells.len() {
            assert(crate::booths::byte_views(fixed@) == cells.take(atl_start as int));
        } else {
            assert(cells.take(cells.len() as int) =~= cells);
        }
        assert((crate::booths::byte_views(fixed@), 0nat) == spec_fix_headers(
            cells,
            atl_start as int,
            atl_start as int,
        ));
    }
    let mut idx: u32 = 0;
    let mut j: usize = copy_to;
    proof {
        if atl_start > cells.len() {
            assert(spec_fix_headers(cells, atl_start as int, copy_to as int) == spec_fix_headers(
                cells,
                atl_start as int,
                atl_start as int,
            ));
        }
    }
    while j < prefs_headers_raw.len()
        invariant
            copy_to <= j <= cells.len(),
            j >= atl_start || j >= cells.len(),
            cells.len() == prefs_headers_raw@.len(),
            cells.len() < 0xFFFF_FFFF,
            forall|t: int| 0 <= t < cells.len() ==> cells[t] == #[trigger] prefs_headers_raw@[t]@,
            idx <= 1 + j,
            (crate::booths::byte_views(fixed@), idx as nat) == spec_fix_headers(
                cells,
                atl_start as int,
                j as int,
            ),
        decreases cells.len() - j,
    {
        let s: &Vec<u8> = &prefs_headers_raw[j];
        proof {
            assert(s@ == cells[j as int]);
        }
        let a_colon: Vec<u8> = vec![65u8, 58u8];
        let ug_colon: Vec<u8> = vec![85u8, 71u8, 58u8];
        proof {
            assert(a_colon@ =~= seq![65u8, 58u8]);
            assert(ug_colon@ =~= seq![85u8, 71u8, 58u8]);
        }
        if bytes_has_prefix(s, &a_colon) {
            idx = 1;
        }
        let mut tick: Vec<u8> = ticket_bytes(idx);
        tick.push(58);
        proof {
            assert(tick@ =~= spec_ticket_bytes(idx as nat) + seq![58u8]);
        }
        if bytes_has_prefix(s, &tick) || bytes_has_prefix(s, &ug_colon) {
            let ghost prev = fixed@;
            fixed.push(copy_bytes(s));
            idx = idx + 1;
            proof {
                crate::booths::lemma_byte_views_push(prev, fixed@, cells[j as int]);
                assert(crate::booths::byte_views(fixed@) =~= spec_fix_headers(
                    cells,
                    atl_start as int,
                    j + 1,
                ).0);
            }
        } else {
            let mut prev_ok: bool = false;
            if idx >= 1 {
                let mut tick2: Vec<u8> = ticket_bytes(idx - 1);
                tick2.push(58);
                proof {
                    assert(tick2@ =~= spec_ticket_bytes((idx - 1) as nat) + seq![58u8]);
                }
                prev_ok = bytes_has_prefix(s, &tick2);
            }
            if prev_ok {
                let ghost prev = fixed@;
                fixed.push(copy_bytes(s));
                proof {
                    crate::booths::lemma_byte_views_push(prev, fixed@, cells[j as int]);
                    assert(crate::booths::byte_views(fixed@) =~= spec_fix_headers(
                        cells,
                        atl_start as int,
                        j + 1,
                    ).0);
                }
            } else {
                let ghost before_pop = fixed@;
                let mut start: Vec<u8> = if fixed.len() == 0 {
                    Vec::new()
                } else {
                    let last: Vec<u8> = match fixed.pop() {
                        Some(v) => v,
                        None => Vec::new(),
                    };
                    last
                };
                proof {
                    crate::booths::lemma_byte_views_prefix(before_pop, fixed@);
                    if before_pop.len() > 0 {
                        assert(crate::booths::byte_views(fixed@) =~= crate::booths::byte_views(
                            before_pop,
                        ).drop_last());
                        assert(start@ == crate::booths::byte_views(before_pop).last());
                    }
                }
                start.push(44);
                let mut c2: usize = 0;
                let ghost start_mid = start@;
                while c2 < s.len()
                    invariant
                        c2 <= s@.len(),
                        start@ == start_mid + s@.take(c2 as int),
                    decreases s@.len() - c2,
                {
                    start.push(s[c2]);
                    proof {
                        assert(start@ =~= start_mid + s@.take(c2 + 1));
                    }
                    c2 = c2 + 1;
                }
                proof {
                    assert(start@ =~= start_mid + s@);
                }
                let ghost prev2 = fixed@;
                let ghost start_view = start@;
                fixed.push(start);
                proof {
                    crate::booths::lemma_byte_views_push(prev2, fixed@, start_view);
                    if before_pop.len() > 0 {
                        assert(start_view =~= crate::booths::byte_views(before_pop).last()
                            + seq![44u8] + cells[j as int]);
                    } else {
                        assert(start_view =~= seq![44u8] + cells[j as int]);
                    }
                    assert(crate::booths::byte_views(fixed@) =~= spec_fix_headers(
                        cells,
                        atl_start as int,
                        j + 1,
                    ).0);
                }
            }
        }
        j = j + 1;
    }
    fixed
}

/// A fresh copy of a byte string.
pub fn copy_bytes(v: &Vec<u8>) -> (r: Vec<u8>)
    ensures
        r@ == v@,
{
    let mut r: Vec<u8> = Vec::new();
    let mut i: usize = 0;
    while i < v.len()
        invariant
            i <= v@.len(),
            r@ == v@.take(i as int),
        decreases v@.len() - i,
    {
        r.push(v[i]);
        proof {
            assert(r@ =~= v@.take(i + 1));
        }
        i = i + 1;
    }
    proof {
        assert(r@ =~= v@);
    }
    r
}


/// A fresh copy of a row of byte cells.
pub fn copy_row_cells(row: &Vec<Vec<u8>>) -> (r: Vec<Vec<u8>>)
    ensures
        crate::booths::byte_views(r@) == crate::booths::byte_views(row@),
{
    let mut r: Vec<Vec<u8>> = Vec::new();
    let mut i: usize = 0;
    while i < row.len()
        invariant
            i <= row@.len(),
            r@.len() == i,
            forall|t: int| 0 <= t < i ==> #[trigger] r@[t]@ == row@[t]@,
        decreases row@.len() - i,
    {
        r.push(copy_bytes(&row[i]));
        i = i + 1;
    }
    proof {
        assert(crate::booths::byte_views(r@) =~= crate::booths::byte_views(row@));
    }
    r
}

} // verus!
