//! Picking a value out of a Lua table.
use vstd::prelude::*;

verus! {

/// What kind of key a table entry has.
#[derive(Debug, PartialEq, Eq)]
pub enum KeyText {
    /// A string key, readable as this text.
    Text(String),
    /// A string key that is not valid text.
    Unreadable,
    /// An integer key: the entry is a positional, unnamed value.
    Position,
    /// Any other key.
    NotText,
}

/// How a table value converts to the wanted type.
#[derive(PartialEq, Eq, Structural, Clone, Copy, Debug)]
pub enum Conversion {
    /// It converts.
    Converted,
    /// It is of another type.
    Mismatch,
    /// Converting it failed otherwise.
    Failed,
}

/// What to do with one entry of the table.
#[derive(PartialEq, Eq, Structural, Clone, Copy, Debug)]
pub enum Verdict {
    /// Its value is the answer.
    Take,
    /// Go on with the next entry.
    Skip,
    /// Stop with the error met on this entry.
    Fail,
}

/// The verdict on one entry when looking for a value of the wanted type:
/// under the key `name` if one is given, else the first unnamed (positional)
/// value that converts. Without a name, a conversion that fails otherwise
/// than by a type mismatch stops the search, whatever the key.
pub open spec fn verdict_spec(name: Option<Seq<char>>, key: KeyText, conversion: Conversion) -> Verdict {
    match name {
        Some(n) => match (key, conversion) {
            (KeyText::Text(k), Conversion::Converted) => if k@ == n { Verdict::Take } else { Verdict::Skip },
            (KeyText::Unreadable, Conversion::Converted) => Verdict::Fail,
            _ => Verdict::Skip,
        },
        None => match conversion {
            Conversion::Converted => match key {
                KeyText::Position => Verdict::Take,
                _ => Verdict::Skip,
            },
            Conversion::Mismatch => Verdict::Skip,
            Conversion::Failed => Verdict::Fail,
        },
    }
}

/// With a name given, only an entry whose key is text equal to that name, and
/// whose value converts, is taken; without one, only a positional entry whose
/// value converts is taken. With a name, the search stops only on a string key
/// that is not valid text beside a value that converts; without one, only on
/// a conversion that fails otherwise than by a type mismatch.
pub proof fn lemma_verdict_take(name: Option<Seq<char>>, key: KeyText, conversion: Conversion)
    ensures
        name is Some ==> (verdict_spec(name, key, conversion) == Verdict::Fail <==> (key is Unreadable
            && conversion == Conversion::Converted)),
        name is None ==> (verdict_spec(name, key, conversion) == Verdict::Fail <==> conversion
            == Conversion::Failed),
        name matches Some(n) ==> (verdict_spec(name, key, conversion) == Verdict::Take <==> (key matches KeyText::Text(
            t,
        ) && t@ == n && conversion == Conversion::Converted)),
        name is None ==> (verdict_spec(name, key, conversion) == Verdict::Take <==> (key is Position && conversion
            == Conversion::Converted)),
{
}

/// The verdict on one entry of the table, as `verdict_spec` gives it.
pub fn entry_verdict(name: Option<&str>, key: &KeyText, conversion: Conversion) -> (res: Verdict)
    ensures
        res == verdict_spec(
            match name {
                Some(n) => Some(n@),
                None => None,
            },
            *key,
            conversion,
        ),
        name matches Some(n) ==> (res == Verdict::Take <==> (*key matches KeyText::Text(t) && t@ == n@
            && conversion == Conversion::Converted)),
        name is None ==> (res == Verdict::Take <==> (*key is Position && conversion == Conversion::Converted)),
{
    match name {
        Some(n) => match (key, conversion) {
            (KeyText::Text(k), Conversion::Converted) => {
                if str_eq(k.as_str(), n) {
                    Verdict::Take
                } else {
                    Verdict::Skip
                }
            },
            (KeyText::Unreadable, Conversion::Converted) => Verdict::Fail,
            _ => Verdict::Skip,
        },
        None => match conversion {
            Conversion::Converted => match key {
                KeyText::Position => Verdict::Take,
                _ => Verdict::Skip,
            },
            Conversion::Mismatch => Verdict::Skip,
            Conversion::Failed => Verdict::Fail,
        },
    }
}

/// Whether `a` and `b` hold the same text.
fn str_eq(a: &str, b: &str) -> (res: bool)
    ensures
        res == (a@ == b@),
{
    let ac = crate::text::chars_of(a);
    let bc = crate::text::chars_of(b);
    if ac.len() != bc.len() {
        return false;
    }
    let mut i: usize = 0;
    while i < ac.len()
        invariant
            ac@ == a@,
            bc@ == b@,
            ac.len() == bc.len(),
            i <= ac.len(),
            forall|j: int| 0 <= j < i ==> ac@[j] == bc@[j],
        decreases ac.len() - i,
    {
        if ac[i] != bc[i] {
            return false;
        }
        i = i + 1;
    }
    assert(ac@ =~= bc@);
    true
}

} // verus!
