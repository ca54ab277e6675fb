//! The state that evaluation works on, and the names it gives to signals
//! and components.

use vstd::prelude::*;
use crate::bigint::U256;
use crate::field::Field;
use crate::literal::be_value;
use crate::literal::decimal_value;
use crate::literal::hex_bytes;
use crate::literal::is_decimal;
use crate::literal::is_hex;
use crate::namemap::NameMap;
use crate::scope::FrameView;
use crate::scope::Scope;
use crate::store::Store;
use crate::store::StoreView;

verus! {

/// The character that writes the digit `d`.
pub open spec fn digit_char(d: nat) -> char {
    if d == 0 {
        '0'
    } else if d == 1 {
        '1'
    } else if d == 2 {
        '2'
    } else if d == 3 {
        '3'
    } else if d == 4 {
        '4'
    } else if d == 5 {
        '5'
    } else if d == 6 {
        '6'
    } else if d == 7 {
        '7'
    } else if d == 8 {
        '8'
    } else {
        '9'
    }
}

/// The decimal digits of `n`, without leading zeros.
pub open spec fn decimal_text(n: nat) -> Seq<char>
    decreases n,
{
    if n < 10 {
        seq![digit_char(n)]
    } else {
        decimal_text(n / 10).push(digit_char(n % 10))
    }
}

/// The text that the indices `idx` add to a signal's name: `_` and the
/// decimal digits of each index.
pub open spec fn index_suffix(idx: Seq<u64>) -> Seq<char>
    decreases idx.len(),
{
    if idx.len() == 0 {
        Seq::empty()
    } else {
        index_suffix(idx.drop_last()) + seq!['_'] + decimal_text(idx.last() as nat)
    }
}

/// The path of the component `name` inside the component at `path`.
pub open spec fn child_path(path: Seq<char>, name: Seq<char>) -> Seq<char> {
    path + seq!['.'] + name
}

/// The full name of the signal `name`, with the indices `idx`, of the
/// component at `path`.
pub open spec fn signal_name(path: Seq<char>, name: Seq<char>, idx: Seq<u64>) -> Seq<char> {
    child_path(path, name) + index_suffix(idx)
}

/// Whether `text` begins with `0x`.
pub open spec fn has_hex_prefix(text: Seq<char>) -> bool {
    text.len() >= 2 && text[0] == '0' && text[1] == 'x'
}

/// The digits behind the `0x` of `text`, with a `0` in front where their
/// number is odd.
pub open spec fn padded_hex(text: Seq<char>) -> Seq<char> {
    let h = text.subrange(2, text.len() as int);
    if h.len() % 2 == 1 {
        seq!['0'] + h
    } else {
        h
    }
}

/// The number that `text` writes: hexadecimal digits, at least one, behind
/// `0x`, or decimal digits.
pub open spec fn number_value(text: Seq<char>) -> Option<nat> {
    if has_hex_prefix(text) {
        if padded_hex(text).len() > 0 && is_hex(padded_hex(text)) {
            Some(be_value(hex_bytes(padded_hex(text))))
        } else {
            None
        }
    } else if is_decimal(text) {
        Some(decimal_value(text))
    } else {
        None
    }
}

/// The field element that the literal `text` writes: the number that it
/// writes, modulo `p`.
pub open spec fn literal_value(text: Seq<char>, p: nat) -> Option<nat> {
    match number_value(text) {
        Some(n) => Some(n % p),
        None => None,
    }
}

/// The text that writes the digit `d`.
fn digit_str(d: u64) -> (r: &'static str)
    requires
        d < 10,
    ensures
        r@ == seq![digit_char(d as nat)],
{
    proof {
        reveal_strlit("0");
        reveal_strlit("1");
        reveal_strlit("2");
        reveal_strlit("3");
        reveal_strlit("4");
        reveal_strlit("5");
        reveal_strlit("6");
        reveal_strlit("7");
        reveal_strlit("8");
        reveal_strlit("9");
    }
    let r = if d == 0 {
        "0"
    } else if d == 1 {
        "1"
    } else if d == 2 {
        "2"
    } else if d == 3 {
        "3"
    } else if d == 4 {
        "4"
    } else if d == 5 {
        "5"
    } else if d == 6 {
        "6"
    } else if d == 7 {
        "7"
    } else if d == 8 {
        "8"
    } else {
        "9"
    };
    assert(r@ =~= seq![digit_char(d as nat)]);
    r
}

/// The decimal digits of `n`.
pub fn u64_to_decimal(n: u64) -> (r: String)
    ensures
        r@ == decimal_text(n as nat),
    decreases n,
{
    if n < 10 {
        digit_str(n).to_owned()
    } else {
        let mut s = u64_to_decimal(n / 10);
        s.append(digit_str(n % 10));
        assert(s@ =~= decimal_text(n as nat));
        s
    }
}

/// The path of the component `name` inside the component at `path`.
pub fn make_child_path(path: &str, name: &str) -> (r: String)
    ensures
        r@ == child_path(path@, name@),
{
    proof {
        reveal_strlit(".");
    }
    let mut s = path.to_owned();
    s.append(".");
    s.append(name);
    assert(s@ =~= child_path(path@, name@));
    s
}

/// The full name of the signal `name`, with the indices `idx`, of the
/// component at `path`.
pub fn make_signal_name(path: &str, name: &str, idx: &Vec<u64>) -> (r: String)
    ensures
        r@ == signal_name(path@, name@, idx@),
{
    proof {
        reveal_strlit("_");
    }
    let mut s = make_child_path(path, name);
    let mut i: usize = 0;
    proof {
        assert(idx@.subrange(0, 0) =~= Seq::<u64>::empty());
        assert(s@ =~= signal_name(path@, name@, idx@.subrange(0, 0)));
    }
    while i < idx.len()
        invariant
            i <= idx.len(),
            s@ == signal_name(path@, name@, idx@.subrange(0, i as int)),
        decreases idx.len() - i,
    {
        let digits = u64_to_decimal(idx[i]);
        s.append("_");
        s.append(digits.as_str());
        proof {
            reveal_strlit("_");
            let next = idx@.subrange(0, i as int + 1);
            assert(next.drop_last() =~= idx@.subrange(0, i as int));
            assert(next.last() == idx@[i as int]);
            assert("_"@ =~= seq!['_']);
            assert(index_suffix(next) == index_suffix(next.drop_last()) + seq!['_'] + decimal_text(
                next.last() as nat,
            ));
            assert(s@ =~= signal_name(path@, name@, next));
        }
        i += 1;
    }
    proof {
        assert(idx@.subrange(0, idx.len() as int) =~= idx@);
    }
    s
}

/// The hexadecimal digits of `text`, padded to an even number, where
/// `text` begins with `0x`.
pub fn hex_digits_of(text: &str) -> (r: Option<String>)
    ensures
        match r {
            Some(d) => has_hex_prefix(text@) && d@ == padded_hex(text@),
            None => !has_hex_prefix(text@),
        },
{
    let n = text.unicode_len();
    if n >= 2 && text.get_char(0) == '0' && text.get_char(1) == 'x' {
        let h = text.substring_char(2, n);
        if (n - 2) % 2 == 1 {
            proof {
                reveal_strlit("0");
            }
            let padded = "0".to_owned().concat(h);
            assert(padded@ =~= seq!['0'] + h@);
            Some(padded)
        } else {
            Some(h.to_owned())
        }
    } else {
        None
    }
}

/// The field element that the literal `text` writes.
pub fn parse_literal(text: &str, field: &Field) -> (r: Option<U256>)
    ensures
        match r {
            Some(v) => literal_value(text@, field.p()) == Some(v@) && field.contains(v),
            None => literal_value(text@, field.p()) is None,
        },
{
    match hex_digits_of(text) {
        Some(digits) => {
            if digits.as_str().unicode_len() == 0 {
                None
            } else {
                field.from_hex(digits.as_str())
            }
        },
        None => field.from_decimal(text),
    }
}

/// The field whose modulus `text` writes, as decimal digits or as
/// hexadecimal digits behind `0x`: there is one where `text` writes a
/// number from two up to, but not including, `2^256`.
pub fn modulus_from_text(text: &str) -> (r: Option<Field>)
    ensures
        match r {
            Some(f) => number_value(text@) == Some(f.p()),
            None => match number_value(text@) {
                Some(n) => n < 2 || n >= crate::bigint::bound(),
                None => true,
            },
        },
{
    let modulus = match hex_digits_of(text) {
        Some(digits) => {
            if digits.as_str().unicode_len() == 0 {
                None
            } else {
                U256::from_hex(digits.as_str())
            }
        },
        None => U256::from_decimal(text),
    };
    match modulus {
        Some(m) => Field::new(m),
        None => None,
    }
}

/// The input signals of each sub-component that have not been written yet.
pub open spec fn pending_view(m: Map<Seq<char>, Vec<u64>>) -> Map<Seq<char>, Seq<u64>> {
    m.map_values(|v: Vec<u64>| v@)
}

/// What evaluation works on.
#[derive(Debug)]
pub struct Machine {
    pub store: Store,
    /// The innermost frame of the current scope chain.
    pub scope: Scope,
    /// The path of the component whose body is being evaluated.
    pub path: String,
    /// Whether a function body is being evaluated.
    pub in_function: bool,
    /// For each sub-component declared so far, by its path, the ids of its
    /// input signals that have not been written yet.
    pub components: NameMap<Vec<u64>>,
    /// How many calls, instantiations and loop iterations may still begin.
    pub steps: u64,
}

/// The machine as contracts see it.
pub struct MachineView {
    pub store: StoreView,
    pub frames: Seq<FrameView>,
    pub path: Seq<char>,
    pub in_function: bool,
    pub components: Map<Seq<char>, Seq<u64>>,
    pub steps: nat,
}

impl View for Machine {
    type V = MachineView;

    open spec fn view(&self) -> MachineView {
        MachineView {
            store: self.store@,
            frames: self.scope@,
            path: self.path@,
            in_function: self.in_function,
            components: pending_view(self.components@),
            steps: self.steps as nat,
        }
    }
}

} // verus!
