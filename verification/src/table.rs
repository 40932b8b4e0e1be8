//! The combination table: for every signature, the digit combinations that
//! a run of that signature may hold.
//!
//! A line of the table text holds a signature and, behind blanks, a list of
//! digits in square brackets, separated by commas; blanks may stand between
//! the digits. A signature may stand on several lines, each of which gives
//! one combination.

use crate::model::{nested_view, SetupError, Signature};
use crate::text::{
    is_nonzero_digit, lines, parse_signature, signature_of, split_lines, split_tokens, tokens,
    CLOSE_BRACKET, COMMA, NINE, OPEN_BRACKET, ZERO,
};
use vstd::prelude::*;
use vstd::slice::slice_to_vec;

verus! {

/// One line of the table as a mathematical value.
pub struct LineView {
    pub signature: Signature,
    pub digits: Seq<u8>,
}

/// The sum of the digits of a combination.
pub open spec fn digit_sum(digits: Seq<u8>) -> int
    decreases digits.len(),
{
    if digits.len() == 0 {
        0
    } else {
        digit_sum(digits.drop_last()) + digits.last()
    }
}

/// `digits` is a combination for `sig`: as many digits as the signature has
/// cells, each from 1 to 9, no two equal, adding up to its sum.
pub open spec fn valid_combination(sig: Signature, digits: Seq<u8>) -> bool {
    &&& sig.valid()
    &&& digits.len() == sig.length
    &&& forall|i: int| 0 <= i < digits.len() ==> 1 <= #[trigger] digits[i] <= 9
    &&& forall|i: int, j: int| 0 <= i < j < digits.len() ==> digits[i] != digits[j]
    &&& digit_sum(digits) == sig.sum
}

/// The tokens from index `from` on, joined without the blanks between them.
pub open spec fn joined_from(tokens: Seq<Seq<u8>>, from: int) -> Seq<u8>
    decreases tokens.len() - from,
{
    if 0 <= from < tokens.len() {
        tokens[from] + joined_from(tokens, from + 1)
    } else {
        Seq::empty()
    }
}

/// The digits that a bracketed list names: `[`, digits from 1 to 9 with a
/// comma between each two, `]`. `None` for any other bytes.
pub open spec fn digit_list(b: Seq<u8>) -> Option<Seq<u8>> {
    if b.len() >= 3 && b.len() % 2 == 1 && b[0] == OPEN_BRACKET && b[b.len() - 1] == CLOSE_BRACKET
        && (forall|p: int|
        0 < p < b.len() - 1 ==> if p % 2 == 1 {
            is_nonzero_digit(#[trigger] b[p])
        } else {
            b[p] == COMMA
        }) {
        Some(Seq::new(((b.len() - 1) / 2) as nat, |i: int| (b[2 * i + 1] - ZERO) as u8))
    } else {
        None
    }
}

/// What a line of the table text holds: its first token is a signature, the
/// others together are a digit list, and the digits are a combination for
/// the signature. `None` for any other line.
pub open spec fn table_line(line: Seq<u8>) -> Option<LineView> {
    let t = tokens(line);
    if t.len() < 2 {
        None
    } else {
        match (signature_of(t[0]), digit_list(joined_from(t, 1))) {
            (Some(signature), Some(digits)) => if valid_combination(signature, digits) {
                Some(LineView { signature, digits })
            } else {
                None
            },
            _ => None,
        }
    }
}

/// The lines of the table behind those that `acc` holds already; the first
/// line that is malformed decides.
pub open spec fn table_with(acc: Seq<LineView>, all: Seq<Seq<u8>>) -> Result<
    Seq<LineView>,
    SetupError,
>
    decreases all.len() - acc.len(),
{
    if acc.len() >= all.len() {
        Ok(acc)
    } else {
        match table_line(all[acc.len() as int]) {
            Some(l) => table_with(acc.push(l), all),
            None => Err(SetupError::TableFormat { line: acc.len() as usize }),
        }
    }
}

/// What a table text holds: one combination per line, in the order of the
/// text.
pub open spec fn table_of(text: Seq<u8>) -> Result<Seq<LineView>, SetupError> {
    table_with(Seq::empty(), lines(text))
}

/// The lines whose signature is among `needed`, in their order.
pub open spec fn restricted(all: Seq<LineView>, needed: Seq<Signature>) -> Seq<LineView>
    decreases all.len(),
{
    if all.len() == 0 {
        Seq::empty()
    } else {
        let before = restricted(all.drop_last(), needed);
        if needed.contains(all.last().signature) {
            before.push(all.last())
        } else {
            before
        }
    }
}

/// The combinations that the table lists for `sig`, in their order.
pub open spec fn combinations_for(all: Seq<LineView>, sig: Signature) -> Seq<Seq<u8>>
    decreases all.len(),
{
    if all.len() == 0 {
        Seq::empty()
    } else {
        let before = combinations_for(all.drop_last(), sig);
        if all.last().signature == sig {
            before.push(all.last().digits)
        } else {
            before
        }
    }
}

/// Every line holds a combination for its signature.
pub open spec fn all_valid(all: Seq<LineView>) -> bool {
    forall|i: int| 0 <= i < all.len() ==> valid_combination((#[trigger] all[i]).signature, all[i].digits)
}

/// Leaving out the lines of other signatures changes nothing for a
/// signature that is needed.
pub proof fn lemma_restricted_keeps_needed(
    all: Seq<LineView>,
    needed: Seq<Signature>,
    sig: Signature,
)
    requires
        needed.contains(sig),
    ensures
        combinations_for(restricted(all, needed), sig) == combinations_for(all, sig),
    decreases all.len(),
{
    if all.len() > 0 {
        lemma_restricted_keeps_needed(all.drop_last(), needed, sig);
        let before = restricted(all.drop_last(), needed);
        if needed.contains(all.last().signature) {
            assert(before.push(all.last()).drop_last() =~= before);
        }
    }
}

/// The combinations of a table of valid lines are combinations for the
/// signature they are listed under.
pub proof fn lemma_combinations_valid(all: Seq<LineView>, sig: Signature)
    requires
        all_valid(all),
    ensures
        forall|i: int|
            0 <= i < combinations_for(all, sig).len() ==> valid_combination(
                sig,
                #[trigger] combinations_for(all, sig)[i],
            ),
    decreases all.len(),
{
    if all.len() > 0 {
        assert(all_valid(all.drop_last())) by {
            assert forall|i: int| 0 <= i < all.drop_last().len() implies valid_combination(
                (#[trigger] all.drop_last()[i]).signature,
                all.drop_last()[i].digits,
            ) by {
                assert(all.drop_last()[i] == all[i]);
            }
        }
        lemma_combinations_valid(all.drop_last(), sig);
        assert(valid_combination(all.last().signature, all.last().digits));
        let before = combinations_for(all.drop_last(), sig);
        let here = combinations_for(all, sig);
        assert forall|i: int| 0 <= i < here.len() implies valid_combination(
            sig,
            #[trigger] here[i],
        ) by {
            if i < before.len() {
                assert(here[i] == before[i]);
            }
        }
    }
}

/// One line of the table: a signature and one combination for it.
#[derive(Clone, Debug, PartialEq, Eq)]
pub struct TableLine {
    pub signature: Signature,
    pub digits: Vec<u8>,
}

impl View for TableLine {
    type V = LineView;

    open spec fn view(&self) -> LineView {
        LineView { signature: self.signature, digits: self.digits@ }
    }
}

/// The lines that a vector holds, each as a mathematical value.
pub open spec fn lines_view(v: Seq<TableLine>) -> Seq<LineView> {
    Seq::new(v.len(), |i: int| v[i]@)
}

/// Reads a bracketed list of digits.
pub fn read_digit_list(b: &[u8]) -> (r: Option<Vec<u8>>)
    ensures
        match digit_list(b@) {
            Some(digits) => r matches Some(v) && v@ == digits,
            None => r is None,
        },
{
    let len = b.len();
    if len < 3 || len % 2 != 1 || b[0] != OPEN_BRACKET || b[len - 1] != CLOSE_BRACKET {
        return None;
    }
    let n = (len - 1) / 2;
    let mut digits: Vec<u8> = Vec::new();
    let mut i: usize = 0;
    while i < n
        invariant
            len == b@.len(),
            len >= 3,
            len % 2 == 1,
            n == (len - 1) / 2,
            i <= n,
            b@[0] == OPEN_BRACKET,
            b@[len - 1] == CLOSE_BRACKET,
            forall|p: int|
                0 < p < 2 * i + 1 && p < len - 1 ==> if p % 2 == 1 {
                    is_nonzero_digit(#[trigger] b@[p])
                } else {
                    b@[p] == COMMA
                },
            digits@ == Seq::new(i as nat, |k: int| (b@[2 * k + 1] - ZERO) as u8),
        decreases n - i,
    {
        let d = b[2 * i + 1];
        if !(ZERO < d && d <= NINE) {
            assert(!is_nonzero_digit(b@[2 * i + 1]));
            return None;
        }
        if i + 1 < n && b[2 * i + 2] != COMMA {
            assert(b@[2 * i + 2] != COMMA);
            return None;
        }
        digits.push(d - ZERO);
        assert(digits@ =~= Seq::new((i + 1) as nat, |k: int| (b@[2 * k + 1] - ZERO) as u8));
        i = i + 1;
    }
    Some(digits)
}

/// Tells whether `digits` is a combination for `sig`.
pub fn is_combination(sig: Signature, digits: &Vec<u8>) -> (r: bool)
    ensures
        r == valid_combination(sig, digits@),
{
    if !(1 <= sig.sum && sig.sum <= 45 && 1 <= sig.length && sig.length <= 9) {
        return false;
    }
    if digits.len() != sig.length as usize {
        return false;
    }
    let mut sum: u8 = 0;
    let mut i: usize = 0;
    while i < digits.len()
        invariant
            i <= digits@.len() <= 9,
            sum == digit_sum(digits@.take(i as int)),
            sum <= 9 * i,
            forall|a: int| 0 <= a < i ==> 1 <= #[trigger] digits@[a] <= 9,
            forall|a: int, b: int| 0 <= a < b < i ==> digits@[a] != digits@[b],
        decreases digits@.len() - i,
    {
        let d = digits[i];
        if !(1 <= d && d <= 9) {
            return false;
        }
        let mut j: usize = 0;
        while j < i
            invariant
                j <= i < digits@.len(),
                d == digits@[i as int],
                forall|a: int| 0 <= a < j ==> digits@[a] != d,
            decreases i - j,
        {
            if digits[j] == d {
                return false;
            }
            j = j + 1;
        }
        proof {
            assert(digits@.take(i + 1).drop_last() =~= digits@.take(i as int));
        }
        sum = sum + d;
        i = i + 1;
    }
    proof {
        assert(digits@.take(i as int) =~= digits@);
    }
    sum == sig.sum
}

/// Reads one line of the table text.
pub fn read_table_line(line: &[u8]) -> (r: Option<TableLine>)
    ensures
        match table_line(line@) {
            Some(v) => r matches Some(l) && l@ == v,
            None => r is None,
        },
{
    let toks = split_tokens(line);
    if toks.len() < 2 {
        return None;
    }
    let ghost all = nested_view(toks@);
    let mut joined: Vec<u8> = Vec::new();
    let mut i: usize = 1;
    while i < toks.len()
        invariant
            1 <= i <= toks@.len(),
            all == nested_view(toks@),
            joined@ + joined_from(all, i as int) == joined_from(all, 1),
        decreases toks@.len() - i,
    {
        let ghost before = joined@;
        let mut k: usize = 0;
        while k < toks[i].len()
            invariant
                i < toks@.len(),
                k <= toks@[i as int]@.len(),
                joined@ == before + toks@[i as int]@.take(k as int),
            decreases toks@[i as int]@.len() - k,
        {
            joined.push(toks[i][k]);
            assert(joined@ =~= before + toks@[i as int]@.take(k + 1));
            k = k + 1;
        }
        proof {
            let rest = joined_from(all, i + 1);
            assert(toks@[i as int]@.take(k as int) =~= all[i as int]);
            assert((before + all[i as int]) + rest =~= before + (all[i as int] + rest));
        }
        i = i + 1;
    }
    proof {
        assert(joined@ + Seq::<u8>::empty() =~= joined@);
    }
    match (parse_signature(toks[0].as_slice()), read_digit_list(joined.as_slice())) {
        (Some(signature), Some(digits)) => {
            if is_combination(signature, &digits) {
                Some(TableLine { signature, digits })
            } else {
                None
            }
        },
        _ => None,
    }
}

/// A combination table: the lines of a table text, in their order. Every
/// line holds a combination for its signature.
#[derive(Debug, PartialEq, Eq)]
pub struct CombinationTable {
    lines: Vec<TableLine>,
}

impl View for CombinationTable {
    type V = Seq<LineView>;

    closed spec fn view(&self) -> Seq<LineView> {
        lines_view(self.lines@)
    }
}

/// The lines that are kept: all of them, or those of the signatures named.
pub open spec fn kept(all: Seq<LineView>, needed: Option<Seq<Signature>>) -> Seq<LineView> {
    match needed {
        Some(list) => restricted(all, list),
        None => all,
    }
}

/// Tells whether the signature is in the list.
pub(crate) fn is_needed(list: &Vec<Signature>, sig: Signature) -> (r: bool)
    ensures
        r == list@.contains(sig),
{
    let mut i: usize = 0;
    while i < list.len()
        invariant
            i <= list@.len(),
            forall|a: int| 0 <= a < i ==> list@[a] != sig,
        decreases list@.len() - i,
    {
        if list[i] == sig {
            return true;
        }
        i = i + 1;
    }
    false
}

impl CombinationTable {
    #[verifier::type_invariant]
    spec fn lines_valid(&self) -> bool {
        all_valid(lines_view(self.lines@))
    }

    fn read(text: &[u8], needed: Option<&Vec<Signature>>) -> (r: Result<
        CombinationTable,
        SetupError,
    >)
        ensures
            match table_of(text@) {
                Ok(all) => r matches Ok(t) && t@ == kept(
                    all,
                    match needed {
                        Some(list) => Some(list@),
                        None => None,
                    },
                ) && all_valid(all),
                Err(e) => r == Err::<CombinationTable, SetupError>(e),
            },
    {
        let all = split_lines(text);
        let ghost filter = match needed {
            Some(list) => Some(list@),
            None => None,
        };
        let ghost mut seen: Seq<LineView> = Seq::empty();
        let mut rows: Vec<TableLine> = Vec::new();
        let mut i: usize = 0;
        proof {
            assert(lines_view(rows@) =~= kept(seen, filter));
        }
        while i < all.len()
            invariant
                i <= all@.len(),
                i == seen.len(),
                nested_view(all@) == lines(text@),
                filter == (match needed {
                    Some(list) => Some(list@),
                    None => None,
                }),
                table_with(seen, lines(text@)) == table_of(text@),
                all_valid(seen),
                all_valid(lines_view(rows@)),
                lines_view(rows@) == kept(seen, filter),
            decreases all@.len() - i,
        {
            match read_table_line(all[i].as_slice()) {
                Some(line) => {
                    let keep = match needed {
                        Some(list) => is_needed(list, line.signature),
                        None => true,
                    };
                    proof {
                        let next = seen.push(line@);
                        assert(next.drop_last() =~= seen);
                        assert(lines_view(rows@.push(line)) =~= lines_view(rows@).push(line@));
                        seen = next;
                    }
                    if keep {
                        rows.push(line);
                    }
                },
                None => {
                    return Err(SetupError::TableFormat { line: i });
                },
            }
            i = i + 1;
        }
        Ok(CombinationTable { lines: rows })
    }

    /// Reads a table text. The first line that does not hold a signature and
    /// a combination for it decides the error, which names the line.
    pub fn load(text: &[u8]) -> (r: Result<CombinationTable, SetupError>)
        ensures
            match table_of(text@) {
                Ok(all) => r matches Ok(t) && t@ == all && all_valid(all),
                Err(e) => r == Err::<CombinationTable, SetupError>(e),
            },
    {
        CombinationTable::read(text, None)
    }

    /// The combinations listed for `sig`, in the order of the table text;
    /// `None` where the table lists none.
    pub fn lookup(&self, sig: Signature) -> (r: Option<Vec<Vec<u8>>>)
        ensures
            match r {
                Some(found) => found@.len() > 0 && nested_view(found@) == combinations_for(
                    self@,
                    sig,
                ),
                None => combinations_for(self@, sig).len() == 0,
            },
            all_valid(self@),
    {
        proof {
            use_type_invariant(self);
        }
        let mut found: Vec<Vec<u8>> = Vec::new();
        let mut i: usize = 0;
        proof {
            assert(self@.take(0) =~= Seq::empty());
            assert(nested_view(found@) =~= Seq::empty());
        }
        while i < self.lines.len()
            invariant
                i <= self.lines@.len(),
                self@ == lines_view(self.lines@),
                nested_view(found@) == combinations_for(self@.take(i as int), sig),
            decreases self.lines@.len() - i,
        {
            proof {
                assert(self@.take(i + 1).drop_last() =~= self@.take(i as int));
                assert(self@.take(i + 1).last() == self.lines@[i as int]@);
            }
            if self.lines[i].signature == sig {
                let digits = slice_to_vec(self.lines[i].digits.as_slice());
                proof {
                    assert(nested_view(found@.push(digits)) =~= nested_view(found@).push(digits@));
                }
                found.push(digits);
            }
            i = i + 1;
        }
        proof {
            assert(self@.take(i as int) =~= self@);
        }
        if found.len() == 0 {
            None
        } else {
            Some(found)
        }
    }
}

/// Reads of a table text the lines whose signature is in `list`. The other
/// lines are read as well, and a malformed one is an error, but they are
/// not kept.
pub fn get_possible_sum_combinations(list: &Vec<Signature>, text: &[u8]) -> (r: Result<
    CombinationTable,
    SetupError,
>)
    ensures
        match table_of(text@) {
            Ok(all) => r matches Ok(t) && t@ == restricted(all, list@) && all_valid(all),
            Err(e) => r == Err::<CombinationTable, SetupError>(e),
        },
{
    CombinationTable::read(text, Some(list))
}

} // verus!
