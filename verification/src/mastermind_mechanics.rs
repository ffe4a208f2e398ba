//! Basic functions around handling and grading the guesses.
use vstd::prelude::*;
use vstd::arithmetic::div_mod::{lemma_fundamental_div_mod, lemma_fundamental_div_mod_converse, lemma_multiply_divide_lt};
use vstd::arithmetic::power::pow;
use rand::Rng;
use rand::rngs::ThreadRng;

verus! {

/// Configuration of a game: the number of columns (pegs per code) and
/// the number of colors (each peg is one of `0..colors`).
pub struct ConfigType {
    pub columns: usize,
    pub colors: u8,
}

/// The grade of a guess: `positions` pegs have the right color at the right
/// place, `colors` further pegs have a color that occurs elsewhere.
#[derive(PartialEq, Eq, Structural, Debug, Clone, Copy, Hash)]
pub struct ResultType {
    pub positions: u8,
    pub colors: u8,
}

/// One code (a guess or a solution): one color per column.
#[derive(Debug, Eq, Hash, PartialEq)]
pub struct CodeType {
    pub entries: Vec<u8>,
}

impl View for CodeType {
    type V = Seq<u8>;

    open spec fn view(&self) -> Seq<u8> {
        self.entries@
    }
}

/// Why a code could not be built from raw input.
#[derive(Debug, Clone, Copy, PartialEq, Eq, Structural)]
pub enum CodeTypeError {
    ColumnMismatch,
    ColorMismatch,
    DecodingError,
}

/// A guess together with its grade against the solution.
pub struct LineType {
    pub code: CodeType,
    pub result: ResultType,
}

// ---------------------------------------------------------------------------
// Text forms
// ---------------------------------------------------------------------------

pub open spec fn digit_char(d: nat) -> char {
    if d == 0 {
        '0'
    } else if d == 1 {
        '1'
    } else if d == 2 {
        '2'
    } else if d == 3 {
        '3'
    } else if d == 4 {
        '4'
    } else if d == 5 {
        '5'
    } else if d == 6 {
        '6'
    } else if d == 7 {
        '7'
    } else if d == 8 {
        '8'
    } else {
        '9'
    }
}

/// Decimal representation of `n` without leading zeros.
pub open spec fn decimal(n: nat) -> Seq<char>
    decreases n,
{
    if n < 10 {
        seq![digit_char(n)]
    } else {
        decimal(n / 10).push(digit_char(n % 10))
    }
}

/// The decimal representations of all entries, one after the other.
pub open spec fn decimals(s: Seq<u8>) -> Seq<char>
    decreases s.len(),
{
    if s.len() == 0 {
        Seq::empty()
    } else {
        decimals(s.drop_last()) + decimal(s.last() as nat)
    }
}

/// Text form of a code: `C` followed by the decimal entries, e.g. `C1234`.
pub open spec fn code_text(s: Seq<u8>) -> Seq<char> {
    seq!['C'] + decimals(s)
}

/// Text form of a grade: `R`, the positions and the colors, e.g. `R41`.
pub open spec fn result_text(r: ResultType) -> Seq<char> {
    seq!['R'] + decimal(r.positions as nat) + decimal(r.colors as nat)
}

/// Plain text form of a grade: positions and colors separated by a blank.
pub open spec fn result_plain_text(r: ResultType) -> Seq<char> {
    decimal(r.positions as nat) + seq![' '] + decimal(r.colors as nat)
}

/// `String::push`: appends one character.
#[verifier::external_body]
fn push_char(s: &mut String, c: char)
    ensures
        final(s)@ == old(s)@.push(c),
{
    s.push(c)
}

fn digit_to_char(d: u8) -> (c: char)
    requires
        d < 10,
    ensures
        c == digit_char(d as nat),
{
    if d == 0 {
        '0'
    } else if d == 1 {
        '1'
    } else if d == 2 {
        '2'
    } else if d == 3 {
        '3'
    } else if d == 4 {
        '4'
    } else if d == 5 {
        '5'
    } else if d == 6 {
        '6'
    } else if d == 7 {
        '7'
    } else if d == 8 {
        '8'
    } else {
        '9'
    }
}

fn push_decimal(s: &mut String, n: u8)
    ensures
        final(s)@ == old(s)@ + decimal(n as nat),
{
    let ghost s0 = s@;
    if n >= 100 {
        push_char(s, digit_to_char(n / 100));
        push_char(s, digit_to_char((n / 10) % 10));
        push_char(s, digit_to_char(n % 10));
        assert(decimal((n / 100) as nat) == seq![digit_char((n / 100) as nat)]);
        assert(decimal((n / 10) as nat) == decimal((n / 100) as nat).push(
            digit_char(((n / 10) % 10) as nat),
        ));
        assert(decimal(n as nat) == decimal((n / 10) as nat).push(digit_char((n % 10) as nat)));
    } else if n >= 10 {
        push_char(s, digit_to_char(n / 10));
        push_char(s, digit_to_char(n % 10));
        assert(decimal((n / 10) as nat) == seq![digit_char((n / 10) as nat)]);
        assert(decimal(n as nat) == decimal((n / 10) as nat).push(digit_char((n % 10) as nat)));
    } else {
        push_char(s, digit_to_char(n));
    }
    assert(s@ =~= s0 + decimal(n as nat));
}

// ---------------------------------------------------------------------------
// Configuration, grade, code and line
// ---------------------------------------------------------------------------

impl ConfigType {
    /// Configuration with `columns` columns and `colors` colors.
    pub fn new(columns: usize, colors: u8) -> (r: Self)
        ensures
            r.columns == columns,
            r.colors == colors,
    {
        ConfigType { columns, colors }
    }

    /// Configuration for the solver, colors given first.
    pub fn new_extended(colors: u8, columns: usize) -> (r: Self)
        ensures
            r.columns == columns,
            r.colors == colors,
    {
        ConfigType { columns, colors }
    }

    /// The grade of a solved game: every column at the right place.
    pub fn done(&self) -> (r: ResultType)
        ensures
            r.positions == self.columns as u8,
            r.colors == 0,
    {
        ResultType { positions: self.columns as u8, colors: 0 }
    }
}

impl ResultType {
    /// Create a new grade.
    pub fn new(positions: u8, colors: u8) -> (r: Self)
        ensures
            r.positions == positions,
            r.colors == colors,
    {
        Self { positions: positions, colors: colors }
    }

    /// Whether this grade solves a game of the given configuration.
    pub fn is_finished(&self, configuration: &ConfigType) -> (r: bool)
        ensures
            r == (configuration.columns == self.positions),
    {
        configuration.columns == self.positions as usize
    }

    /// Whether this grade solves a game with `width` columns.
    pub fn is_done_num(&self, width: usize) -> (r: bool)
        ensures
            r == (width == self.positions),
    {
        width == self.positions as usize
    }

    /// Plain text form, positions and colors separated by a blank (`4 1`).
    pub fn string(&self) -> (r: String)
        ensures
            r@ == result_plain_text(*self),
    {
        let mut s = String::new();
        push_decimal(&mut s, self.positions);
        push_char(&mut s, ' ');
        push_decimal(&mut s, self.colors);
        assert(s@ =~= result_plain_text(*self));
        s
    }

    /// Display form, e.g. `R41`.
    pub fn to_string(&self) -> (r: String)
        ensures
            r@ == result_text(*self),
    {
        let mut s = String::new();
        push_char(&mut s, 'R');
        push_decimal(&mut s, self.positions);
        push_decimal(&mut s, self.colors);
        assert(s@ =~= result_text(*self));
        s
    }
}

impl Clone for CodeType {
    fn clone(&self) -> (r: Self)
        ensures
            r@ == self@,
    {
        let entries = self.entries.clone();
        assert(entries@ =~= self.entries@);
        CodeType { entries }
    }
}

impl CodeType {
    /// New code WITHOUT any check.
    pub fn new(entries: Vec<u8>) -> (r: Self)
        ensures
            r@ == entries@,
    {
        Self { entries }
    }

    /// New code checked against the configuration: the number of entries must
    /// be the number of columns, and every entry a color of the configuration.
    pub fn new_check(entries: Vec<u8>, configuration: &ConfigType) -> (r: Result<Self, CodeTypeError>)
        requires
            entries@.len() > 0 || configuration.columns > 0,
        ensures
            entries@.len() != configuration.columns ==> r == Err::<Self, CodeTypeError>(
                CodeTypeError::ColumnMismatch,
            ),
            entries@.len() == configuration.columns && (exists|i: int|
                0 <= i < entries@.len() && entries@[i] >= configuration.colors) ==> r == Err::<
                Self,
                CodeTypeError,
            >(CodeTypeError::ColorMismatch),
            r is Ok <==> (entries@.len() == configuration.columns && forall|i: int|
                0 <= i < entries@.len() ==> entries@[i] < configuration.colors),
            r matches Ok(c) ==> c@ == entries@,
    {
        if entries.len() != configuration.columns {
            return Err(CodeTypeError::ColumnMismatch);
        }
        let mut max: u8 = entries[0];
        let mut i: usize = 1;
        while i < entries.len()
            invariant
                1 <= i <= entries@.len(),
                exists|k: int| 0 <= k < i && entries@[k] == max,
                forall|k: int| 0 <= k < i ==> entries@[k] <= max,
            decreases entries@.len() - i,
        {
            if entries[i] > max {
                max = entries[i];
            }
            i = i + 1;
        }
        if max >= configuration.colors {
            return Err(CodeTypeError::ColorMismatch);
        }
        Ok(Self::new(entries))
    }

    /// Whether the entries equal `other_entries`.
    pub fn eq_vec(&self, other_entries: Vec<u8>) -> (r: bool)
        ensures
            r == (self@ == other_entries@),
    {
        if self.entries.len() != other_entries.len() {
            return false;
        }
        let mut i: usize = 0;
        while i < other_entries.len()
            invariant
                self@.len() == other_entries@.len(),
                i <= other_entries@.len(),
                forall|k: int| 0 <= k < i ==> self@[k] == other_entries@[k],
            decreases other_entries@.len() - i,
        {
            if self.entries[i] != other_entries[i] {
                return false;
            }
            i = i + 1;
        }
        assert(self@ =~= other_entries@);
        true
    }

    /// Whether this code equals another code.
    pub fn eq(&self, other: &CodeType) -> (r: bool)
        ensures
            r == (self@ == other@),
    {
        self.eq_vec(other.entries.clone())
    }

    /// Whether the text form of this code (e.g. `C1234`) equals `other`.
    pub fn eq_str(&self, other: String) -> (r: bool)
        ensures
            r == (code_text(self@) == other@),
    {
        let own = self.to_string();
        own == other
    }

    /// Text form, e.g. `C1234`.
    pub fn to_string(&self) -> (r: String)
        ensures
            r@ == code_text(self@),
    {
        let mut s = String::new();
        push_char(&mut s, 'C');
        let mut i: usize = 0;
        while i < self.entries.len()
            invariant
                i <= self@.len(),
                s@ == seq!['C'] + decimals(self@.subrange(0, i as int)),
            decreases self@.len() - i,
        {
            push_decimal(&mut s, self.entries[i]);
            proof {
                let pre = self@.subrange(0, i as int + 1);
                assert(pre.drop_last() =~= self@.subrange(0, i as int));
            }
            i = i + 1;
        }
        assert(self@.subrange(0, self@.len() as int) =~= self@);
        s
    }

    /// Grade this code against another code (the solution).
    pub fn grade(&self, other: &Self) -> (r: ResultType)
        requires
            gradable(self@, other@),
        ensures
            r == spec_grade(self@, other@),
    {
        grade(self, other)
    }

    /// The number of columns of this code.
    pub fn len(&self) -> (r: usize)
        ensures
            r == self@.len(),
    {
        self.entries.len()
    }

    /// The grade that solves a game with this code's number of columns.
    pub fn result_finished(&self) -> (r: ResultType)
        ensures
            r.positions == self@.len() as u8,
            r.colors == 0,
    {
        ResultType { positions: self.len() as u8, colors: 0 }
    }
}

impl From<&CodeType> for String {
    /// The text form of the code, e.g. `C1234`.
    fn from(code: &CodeType) -> (r: String)
        ensures
            r@ == code_text(code@),
    {
        code.to_string()
    }
}

/// Specifications do not determine a `String` by its characters, so the
/// conversion is stated by the view of its result at `from` itself.
impl vstd::std_specs::convert::FromSpecImpl<&CodeType> for String {
    open spec fn obeys_from_spec() -> bool {
        false
    }

    open spec fn from_spec(v: &CodeType) -> String {
        choose|s: String| s@ == code_text(v@)
    }
}

impl From<CodeType> for String {
    /// The text form of the code, e.g. `C1234`.
    fn from(code: CodeType) -> (r: String)
        ensures
            r@ == code_text(code@),
    {
        code.to_string()
    }
}

/// As for `&CodeType`: the conversion is stated at `from` itself.
impl vstd::std_specs::convert::FromSpecImpl<CodeType> for String {
    open spec fn obeys_from_spec() -> bool {
        false
    }

    open spec fn from_spec(v: CodeType) -> String {
        choose|s: String| s@ == code_text(v@)
    }
}

impl LineType {
    /// Grade `new_line` against the solution and keep both.
    pub fn new(new_line: CodeType, solution: &CodeType) -> (r: LineType)
        requires
            gradable(new_line@, solution@),
        ensures
            r.code@ == new_line@,
            r.result == spec_grade(new_line@, solution@),
    {
        let result = grade(&new_line, solution);
        LineType { code: new_line, result: result }
    }

    /// Whether this line solved the game.
    pub fn done(&self, configuration: &ConfigType) -> (r: bool)
        ensures
            r == (configuration.columns == self.result.positions),
    {
        self.result.is_finished(configuration)
    }
}

// ---------------------------------------------------------------------------
// The grading model
// ---------------------------------------------------------------------------

/// Number of columns `i < n` in which the two codes agree.
pub open spec fn exact_count(g: Seq<u8>, s: Seq<u8>, n: int) -> nat
    decreases n,
{
    if n <= 0 {
        0
    } else {
        exact_count(g, s, n - 1) + if g[n - 1] == s[n - 1] { 1nat } else { 0nat }
    }
}

/// Number of columns `i < n` in which `a` has color `c` and differs from `b`.
pub open spec fn misplaced_count(a: Seq<u8>, b: Seq<u8>, c: u8, n: int) -> nat
    decreases n,
{
    if n <= 0 {
        0
    } else {
        misplaced_count(a, b, c, n - 1) + if a[n - 1] != b[n - 1] && a[n - 1] == c {
            1nat
        } else {
            0nat
        }
    }
}

pub open spec fn min_nat(a: nat, b: nat) -> nat {
    if a <= b {
        a
    } else {
        b
    }
}

/// Sum over the colors `c < k` of the number of pegs of color `c` that can be
/// paired between the first `i` non-exact columns of `g` and all non-exact
/// columns of `s`.
pub open spec fn common_colors(g: Seq<u8>, s: Seq<u8>, i: int, k: int) -> nat
    decreases k,
{
    if k <= 0 {
        0
    } else {
        common_colors(g, s, i, k - 1) + min_nat(
            misplaced_count(g, s, (k - 1) as u8, i),
            misplaced_count(s, g, (k - 1) as u8, s.len() as int),
        )
    }
}

/// Number of right pegs at the right place.
pub open spec fn spec_positions(g: Seq<u8>, s: Seq<u8>) -> nat {
    exact_count(g, s, g.len() as int)
}

/// Number of right colors at a wrong place: for each color the smaller of
/// its counts among the non-matching columns of the guess and of the solution.
pub open spec fn spec_colors(g: Seq<u8>, s: Seq<u8>) -> nat {
    common_colors(g, s, g.len() as int, 256)
}

/// Both codes have the same length and both counts fit into a `u8`.
pub open spec fn gradable(g: Seq<u8>, s: Seq<u8>) -> bool {
    &&& g.len() == s.len()
    &&& spec_positions(g, s) <= 255
    &&& spec_colors(g, s) <= 255
}

/// The grade of `g` against the solution `s`.
pub open spec fn spec_grade(g: Seq<u8>, s: Seq<u8>) -> ResultType {
    ResultType { positions: spec_positions(g, s) as u8, colors: spec_colors(g, s) as u8 }
}

/// Number of columns `j < n` not yet marked in `mask` that hold color `c` in `s`.
pub open spec fn unmarked_count(s: Seq<u8>, mask: Seq<bool>, c: u8, n: int) -> nat
    decreases n,
{
    if n <= 0 {
        0
    } else {
        unmarked_count(s, mask, c, n - 1) + if !mask[n - 1] && s[n - 1] == c {
            1nat
        } else {
            0nat
        }
    }
}

proof fn lemma_exact_count_mono(g: Seq<u8>, s: Seq<u8>, i: int, n: int)
    requires
        0 <= i <= n,
    ensures
        exact_count(g, s, i) <= exact_count(g, s, n),
    decreases n - i,
{
    if i < n {
        lemma_exact_count_mono(g, s, i, n - 1);
    }
}

/// One more column of the guess adds one to the common count exactly when
/// it is non-exact and its color still has an unpaired partner.
proof fn lemma_common_step(g: Seq<u8>, s: Seq<u8>, i: int, k: int)
    requires
        0 <= i,
        0 <= k <= 256,
    ensures
        common_colors(g, s, i + 1, k) == common_colors(g, s, i, k) + if g[i] != s[i] && g[i]
            < k && misplaced_count(g, s, g[i], i) < misplaced_count(s, g, g[i], s.len() as int) {
            1nat
        } else {
            0nat
        },
    decreases k,
{
    if k > 0 {
        lemma_common_step(g, s, i, k - 1);
        let c = (k - 1) as u8;
        assert(c as int == k - 1);
        assert(misplaced_count(g, s, c, i + 1) == misplaced_count(g, s, c, i) + if g[i] != s[i]
            && g[i] == c {
            1nat
        } else {
            0nat
        });
    }
}

proof fn lemma_common_zero(g: Seq<u8>, s: Seq<u8>, k: int)
    requires
        0 <= k,
    ensures
        common_colors(g, s, 0, k) == 0,
    decreases k,
{
    if k > 0 {
        lemma_common_zero(g, s, k - 1);
    }
}

proof fn lemma_common_mono(g: Seq<u8>, s: Seq<u8>, i: int, n: int)
    requires
        0 <= i <= n,
    ensures
        common_colors(g, s, i, 256) <= common_colors(g, s, n, 256),
    decreases n - i,
{
    if i < n {
        lemma_common_mono(g, s, i, n - 1);
        lemma_common_step(g, s, n - 1, 256);
    }
}

/// Marking column `j` removes one peg of color `s[j]` from the unmarked ones.
proof fn lemma_unmarked_mark(s: Seq<u8>, mask: Seq<bool>, j: int, c: u8, n: int)
    requires
        0 <= j < mask.len(),
        !mask[j],
        0 <= n <= mask.len(),
    ensures
        unmarked_count(s, mask.update(j, true), c, n) + if j < n && s[j] == c {
            1nat
        } else {
            0nat
        } == unmarked_count(s, mask, c, n),
    decreases n,
{
    if n > 0 {
        lemma_unmarked_mark(s, mask, j, c, n - 1);
    }
}

/// Without an unmarked column of color `c`, the unmarked count of `c` is zero.
proof fn lemma_unmarked_none(s: Seq<u8>, mask: Seq<bool>, c: u8, n: int)
    requires
        forall|j: int| 0 <= j < n ==> !(!mask[j] && s[j] == c),
    ensures
        unmarked_count(s, mask, c, n) == 0,
    decreases n,
{
    if n > 0 {
        lemma_unmarked_none(s, mask, c, n - 1);
    }
}

/// With exactly the exact columns marked, the unmarked count of `c` is the
/// misplaced count of `c` in the solution.
proof fn lemma_unmarked_initial(g: Seq<u8>, s: Seq<u8>, mask: Seq<bool>, c: u8, n: int)
    requires
        g.len() == s.len() == mask.len(),
        0 <= n <= mask.len(),
        forall|j: int| 0 <= j < mask.len() ==> mask[j] == (g[j] == s[j]),
    ensures
        unmarked_count(s, mask, c, n) == misplaced_count(s, g, c, n),
    decreases n,
{
    if n > 0 {
        lemma_unmarked_initial(g, s, mask, c, n - 1);
    }
}

/// Sum over the colors `c < k` of the misplaced counts of `c` in the first `n` columns.
pub open spec fn sum_misplaced(a: Seq<u8>, b: Seq<u8>, n: int, k: int) -> nat
    decreases k,
{
    if k <= 0 {
        0
    } else {
        sum_misplaced(a, b, n, k - 1) + misplaced_count(a, b, (k - 1) as u8, n)
    }
}

proof fn lemma_sum_misplaced_step(a: Seq<u8>, b: Seq<u8>, n: int, k: int)
    requires
        0 <= n,
        0 <= k <= 256,
    ensures
        sum_misplaced(a, b, n + 1, k) == sum_misplaced(a, b, n, k) + if a[n] != b[n] && a[n] < k {
            1nat
        } else {
            0nat
        },
    decreases k,
{
    if k > 0 {
        lemma_sum_misplaced_step(a, b, n, k - 1);
        let c = (k - 1) as u8;
        assert(c as int == k - 1);
        assert(misplaced_count(a, b, c, n + 1) == misplaced_count(a, b, c, n) + if a[n] != b[n]
            && a[n] == c {
            1nat
        } else {
            0nat
        });
    }
}

proof fn lemma_sum_misplaced_zero(a: Seq<u8>, b: Seq<u8>, k: int)
    requires
        0 <= k,
    ensures
        sum_misplaced(a, b, 0, k) == 0,
    decreases k,
{
    if k > 0 {
        lemma_sum_misplaced_zero(a, b, k - 1);
    }
}

/// Every column is either exact or misplaced with some color.
proof fn lemma_columns_partition(a: Seq<u8>, b: Seq<u8>, n: int)
    requires
        0 <= n,
    ensures
        exact_count(a, b, n) + sum_misplaced(a, b, n, 256) == n,
    decreases n,
{
    if n == 0 {
        lemma_sum_misplaced_zero(a, b, 256);
    } else {
        lemma_columns_partition(a, b, n - 1);
        lemma_sum_misplaced_step(a, b, n - 1, 256);
    }
}

proof fn lemma_common_le_sum(g: Seq<u8>, s: Seq<u8>, n: int, k: int)
    requires
        0 <= k,
    ensures
        common_colors(g, s, n, k) <= sum_misplaced(g, s, n, k),
    decreases k,
{
    if k > 0 {
        lemma_common_le_sum(g, s, n, k - 1);
    }
}

/// Both parts of a grade together never exceed the number of columns.
pub proof fn lemma_grade_total(g: Seq<u8>, s: Seq<u8>)
    requires
        g.len() == s.len(),
    ensures
        spec_positions(g, s) + spec_colors(g, s) <= g.len(),
{
    lemma_columns_partition(g, s, g.len() as int);
    lemma_common_le_sum(g, s, g.len() as int, 256);
}

/// Codes of equal length of at most 255 columns can always be graded.
pub proof fn lemma_gradable_short(g: Seq<u8>, s: Seq<u8>)
    requires
        g.len() == s.len(),
        g.len() <= 255,
    ensures
        gradable(g, s),
{
    lemma_grade_total(g, s);
}

proof fn lemma_exact_count_full(g: Seq<u8>, s: Seq<u8>, n: int)
    requires
        0 <= n <= g.len(),
        n <= s.len(),
    ensures
        exact_count(g, s, n) <= n,
        exact_count(g, s, n) == n <==> forall|i: int| 0 <= i < n ==> g[i] == s[i],
    decreases n,
{
    if n > 0 {
        lemma_exact_count_full(g, s, n - 1);
        if exact_count(g, s, n) == n {
            assert forall|i: int| 0 <= i < n implies g[i] == s[i] by {
                if i < n - 1 {
                } else {
                }
            }
        }
    }
}

/// A guess has all its pegs at the right place exactly when it is the solution.
pub proof fn lemma_grade_exact_iff_equal(g: Seq<u8>, s: Seq<u8>)
    requires
        g.len() == s.len(),
    ensures
        spec_positions(g, s) == g.len() <==> g == s,
{
    lemma_exact_count_full(g, s, g.len() as int);
    if spec_positions(g, s) == g.len() {
        assert(g =~= s);
    }
}

proof fn lemma_exact_count_symmetric(g: Seq<u8>, s: Seq<u8>, n: int)
    ensures
        exact_count(g, s, n) == exact_count(s, g, n),
    decreases n,
{
    if n > 0 {
        lemma_exact_count_symmetric(g, s, n - 1);
    }
}

proof fn lemma_common_symmetric(g: Seq<u8>, s: Seq<u8>, k: int)
    requires
        g.len() == s.len(),
    ensures
        common_colors(g, s, g.len() as int, k) == common_colors(s, g, s.len() as int, k),
    decreases k,
{
    if k > 0 {
        lemma_common_symmetric(g, s, k - 1);
    }
}

/// Grading is symmetric: swapping guess and solution gives the same grade.
pub proof fn lemma_grade_symmetric(g: Seq<u8>, s: Seq<u8>)
    requires
        g.len() == s.len(),
    ensures
        spec_grade(g, s) == spec_grade(s, g),
{
    lemma_exact_count_symmetric(g, s, g.len() as int);
    lemma_common_symmetric(g, s, 256);
}

proof fn lemma_misplaced_self(g: Seq<u8>, c: u8, n: int)
    ensures
        misplaced_count(g, g, c, n) == 0,
    decreases n,
{
    if n > 0 {
        lemma_misplaced_self(g, c, n - 1);
    }
}

proof fn lemma_common_self(g: Seq<u8>, k: int)
    ensures
        common_colors(g, g, g.len() as int, k) == 0,
    decreases k,
{
    if k > 0 {
        lemma_common_self(g, k - 1);
        lemma_misplaced_self(g, (k - 1) as u8, g.len() as int);
    }
}

/// A code graded against itself has every peg at the right place and no
/// further color matches.
pub proof fn lemma_grade_self(g: Seq<u8>)
    ensures
        spec_positions(g, g) == g.len(),
        spec_colors(g, g) == 0,
{
    lemma_exact_count_full(g, g, g.len() as int);
    lemma_common_self(g, 256);
}

/// Grade `guess` against `solution`: count the exact matches first, then pair
/// each remaining guess peg with the first unpaired solution peg of its color.
pub fn grade(guess: &CodeType, solution: &CodeType) -> (r: ResultType)
    requires
        gradable(guess@, solution@),
    ensures
        r.positions == spec_positions(guess@, solution@),
        r.colors == spec_colors(guess@, solution@),
        r == spec_grade(guess@, solution@),
{
    let length: usize = guess.entries.len();
    let ghost g = guess@;
    let ghost s = solution@;
    let mut line_bool: Vec<bool> = Vec::new();
    let mut solution_bool: Vec<bool> = Vec::new();
    let mut positions: u8 = 0;
    let mut colors: u8 = 0;

    let mut i: usize = 0;
    while i < length
        invariant
            g == guess@,
            s == solution@,
            length == g.len(),
            gradable(g, s),
            i <= length,
            positions == exact_count(g, s, i as int),
            line_bool@.len() == i,
            solution_bool@.len() == i,
            forall|k: int| 0 <= k < i ==> line_bool@[k] == (g[k] == s[k]),
            forall|k: int| 0 <= k < i ==> solution_bool@[k] == (g[k] == s[k]),
        decreases length - i,
    {
        if guess.entries[i] == solution.entries[i] {
            proof {
                lemma_exact_count_mono(g, s, i + 1, length as int);
            }
            positions = positions + 1;
            line_bool.push(true);
            solution_bool.push(true);
        } else {
            line_bool.push(false);
            solution_bool.push(false);
        }
        i = i + 1;
    }

    proof {
        assert forall|c: u8| #[trigger]
            unmarked_count(s, solution_bool@, c, length as int) == misplaced_count(
                s,
                g,
                c,
                length as int,
            ) by {
            lemma_unmarked_initial(g, s, solution_bool@, c, length as int);
        }
    }

    proof {
        lemma_common_zero(g, s, 256);
    }
    let mut i: usize = 0;
    while i < length
        invariant
            g == guess@,
            s == solution@,
            length == g.len(),
            gradable(g, s),
            i <= length,
            positions == spec_positions(g, s),
            line_bool@.len() == length,
            solution_bool@.len() == length,
            forall|k: int| i <= k < length ==> line_bool@[k] == (g[k] == s[k]),
            colors == common_colors(g, s, i as int, 256),
            forall|c: u8| #[trigger]
                unmarked_count(s, solution_bool@, c, length as int) + min_nat(
                    misplaced_count(g, s, c, i as int),
                    misplaced_count(s, g, c, length as int),
                ) == misplaced_count(s, g, c, length as int),
        decreases length - i,
    {
        proof {
            lemma_common_step(g, s, i as int, 256);
            lemma_common_mono(g, s, i as int + 1, length as int);
        }
        if !line_bool[i] {
            let ghost c = g[i as int];
            let mut j: usize = 0;
            let mut found = false;
            while j < length
                invariant_except_break
                    g == guess@,
                    s == solution@,
                    length == g.len(),
                    length == s.len(),
                    i < length,
                    c == g[i as int],
                    solution_bool@.len() == length,
                    j <= length,
                    !found,
                    forall|k: int| 0 <= k < j ==> !(!solution_bool@[k] && s[k] == c),
                ensures
                    solution_bool@.len() == length,
                    found ==> (j < length && !solution_bool@[j as int] && s[j as int] == c),
                    !found ==> forall|k: int| 0 <= k < length ==> !(!solution_bool@[k] && s[k] == c),
                decreases length - j,
            {
                if !solution_bool[j] && guess.entries[i] == solution.entries[j] {
                    found = true;
                    break;
                }
                j = j + 1;
            }
            if found {
                proof {
                    assert forall|d: u8| #[trigger]
                        unmarked_count(s, solution_bool@.update(j as int, true), d, length as int)
                            + (if s[j as int] == d { 1nat } else { 0nat })
                            == unmarked_count(s, solution_bool@, d, length as int) by {
                        lemma_unmarked_mark(s, solution_bool@, j as int, d, length as int);
                    }
                    lemma_unmarked_mark(s, solution_bool@, j as int, c, length as int);
                    assert(unmarked_count(s, solution_bool@, c, length as int) >= 1);
                    assert(misplaced_count(g, s, c, i as int) < misplaced_count(
                        s,
                        g,
                        c,
                        length as int,
                    ));
                    assert(colors + 1 == common_colors(g, s, i as int + 1, 256));
                }
                line_bool.set(i, true);
                solution_bool.set(j, true);
                colors = colors + 1;
            } else {
                proof {
                    lemma_unmarked_none(s, solution_bool@, c, length as int);
                    assert(unmarked_count(s, solution_bool@, c, length as int) == 0);
                }
            }
        }
        i = i + 1;
    }
    ResultType { positions, colors }
}

// ---------------------------------------------------------------------------
// Enumeration of all codes
// ---------------------------------------------------------------------------

/// The `n` lowest base-`b` digits of `k`, least significant first.
pub open spec fn digits_le(k: nat, b: nat, n: nat) -> Seq<u8>
    decreases n,
{
    if n == 0 {
        Seq::empty()
    } else {
        seq![(k % b) as u8] + digits_le(k / b, b, (n - 1) as nat)
    }
}

/// The `k`-th code in the enumeration order of `get_all_codes`: the base-`colors`
/// representation of `k` with `columns` digits, most significant digit first.
pub open spec fn nth_code(k: nat, colors: nat, columns: nat) -> Seq<u8> {
    digits_le(k, colors, columns).reverse()
}

/// Number of different codes of a configuration.
pub open spec fn code_count(colors: nat, columns: nat) -> nat {
    pow(colors as int, columns) as nat
}

/// Odometer step on a little-endian digit sequence.
pub open spec fn odometer_step(s: Seq<u8>, b: nat) -> Seq<u8>
    decreases s.len(),
{
    if s.len() == 0 {
        s
    } else if s[0] == b - 1 {
        seq![0u8] + odometer_step(s.drop_first(), b)
    } else {
        seq![(s[0] + 1) as u8] + s.drop_first()
    }
}

pub open spec fn zeros(n: nat) -> Seq<u8> {
    Seq::new(n, |i: int| 0u8)
}

proof fn lemma_digits_len(k: nat, b: nat, n: nat)
    requires
        0 < b,
    ensures
        digits_le(k, b, n).len() == n,
    decreases n,
{
    if n > 0 {
        lemma_digits_len(k / b, b, (n - 1) as nat);
        let tail = digits_le(k / b, b, (n - 1) as nat);
        let d = digits_le(k, b, n);
        assert(n != 0);
        assert(d == seq![(k % b) as u8] + digits_le(k / b, b, (n - 1) as nat));
    }
}

proof fn lemma_digits_bound(k: nat, b: nat, n: nat)
    requires
        0 < b <= 256,
    ensures
        forall|i: int| 0 <= i < n ==> digits_le(k, b, n)[i] < b,
    decreases n,
{
    lemma_digits_len(k, b, n);
    if n > 0 {
        lemma_digits_bound(k / b, b, (n - 1) as nat);
        assert forall|i: int| 0 <= i < n implies digits_le(k, b, n)[i] < b by {
            if i == 0 {
                assert(k % b < b);
            } else {
                assert(digits_le(k, b, n)[i] == digits_le(k / b, b, (n - 1) as nat)[i - 1]);
            }
        }
    }
}

/// Every code of the enumeration has one entry per column.
pub proof fn lemma_nth_code_len(k: nat, colors: nat, columns: nat)
    requires
        colors > 0 || columns == 0,
    ensures
        nth_code(k, colors, columns).len() == columns,
{
    if colors > 0 {
        lemma_digits_len(k, colors, columns);
    }
}

/// Counting up by one is an odometer step on the digits.
proof fn lemma_digits_succ(k: nat, b: nat, n: nat)
    requires
        0 < b <= 256,
    ensures
        digits_le(k + 1, b, n) == odometer_step(digits_le(k, b, n), b),
    decreases n,
{
    if n > 0 {
        let q = k / b;
        let r = k % b;
        lemma_fundamental_div_mod(k as int, b as int);
        let d = digits_le(k, b, n);
        lemma_digits_len(k, b, n);
        assert(d.drop_first() =~= digits_le(q, b, (n - 1) as nat));
        if r == b - 1 {
            assert((k + 1) as int == (q + 1) * b + 0) by (nonlinear_arith)
                requires
                    k == b * q + r,
                    r == b - 1,
            ;
            lemma_fundamental_div_mod_converse((k + 1) as int, b as int, (q + 1) as int, 0);
            lemma_digits_succ(q, b, (n - 1) as nat);
            assert(d[0] == b - 1);
        } else {
            assert((k + 1) as int == q * b + (r + 1)) by (nonlinear_arith)
                requires
                    k == b * q + r,
            ;
            lemma_fundamental_div_mod_converse((k + 1) as int, b as int, q as int, (r + 1) as int);
            assert(d[0] != b - 1);
        }
        assert(digits_le(k + 1, b, n) =~= odometer_step(d, b));
    }
}

/// The digits of `b^n` are all zero: the odometer has wrapped around.
proof fn lemma_digits_wrap(b: nat, n: nat)
    requires
        0 < b,
    ensures
        digits_le(code_count(b, n), b, n) == zeros(n),
    decreases n,
{
    if n > 0 {
        lemma_digits_wrap(b, (n - 1) as nat);
        let p = pow(b as int, (n - 1) as nat);
        vstd::arithmetic::power::lemma_pow_positive(b as int, (n - 1) as nat);
        reveal(pow);
        assert(pow(b as int, n) == b * p);
        assert(b * p == p * b) by (nonlinear_arith);
        lemma_fundamental_div_mod_converse(b * p, b as int, p, 0);
        lemma_digits_len(code_count(b, n), b, n);
        assert(digits_le(code_count(b, n), b, n) =~= zeros(n));
    }
}

/// Below `b^n` only zero has all digits zero.
proof fn lemma_digits_zero_only(k: nat, b: nat, n: nat)
    requires
        0 < b <= 256,
        k < code_count(b, n),
        digits_le(k, b, n) == zeros(n),
    ensures
        k == 0,
    decreases n,
{
    if n > 0 {
        let p = pow(b as int, (n - 1) as nat);
        vstd::arithmetic::power::lemma_pow_positive(b as int, (n - 1) as nat);
        reveal(pow);
        assert(pow(b as int, n) == b * p);
        lemma_fundamental_div_mod(k as int, b as int);
        lemma_multiply_divide_lt(k as int, b as int, p);
        let d = digits_le(k, b, n);
        assert(d[0] == zeros(n)[0]);
        assert(k % b == 0);
        lemma_digits_len(k / b, b, (n - 1) as nat);
        assert(digits_le(k / b, b, (n - 1) as nat) =~= zeros((n - 1) as nat)) by {
            assert forall|i: int| 0 <= i < n - 1 implies #[trigger] digits_le(k / b, b, (n - 1) as nat)[i]
                == 0u8 by {
                assert(d[i + 1] == zeros(n)[i + 1]);
            }
        }
        lemma_digits_zero_only(k / b, b, (n - 1) as nat);
    } else {
        reveal(pow);
        assert(pow(b as int, 0) == 1);
    }
}

/// Below `b^n` different numbers have different digits.
proof fn lemma_digits_injective(i: nat, j: nat, b: nat, n: nat)
    requires
        0 < b <= 256,
        i < code_count(b, n),
        j < code_count(b, n),
        digits_le(i, b, n) == digits_le(j, b, n),
    ensures
        i == j,
    decreases n,
{
    if n > 0 {
        let p = pow(b as int, (n - 1) as nat);
        vstd::arithmetic::power::lemma_pow_positive(b as int, (n - 1) as nat);
        reveal(pow);
        assert(pow(b as int, n) == b * p);
        lemma_fundamental_div_mod(i as int, b as int);
        lemma_fundamental_div_mod(j as int, b as int);
        lemma_multiply_divide_lt(i as int, b as int, p);
        lemma_multiply_divide_lt(j as int, b as int, p);
        let di = digits_le(i, b, n);
        let dj = digits_le(j, b, n);
        assert(di[0] == dj[0]);
        assert(i % b == j % b);
        lemma_digits_len(i / b, b, (n - 1) as nat);
        lemma_digits_len(j / b, b, (n - 1) as nat);
        assert(digits_le(i / b, b, (n - 1) as nat) =~= digits_le(j / b, b, (n - 1) as nat)) by {
            assert forall|q: int| 0 <= q < n - 1 implies #[trigger] digits_le(i / b, b, (n - 1) as nat)[q]
                == digits_le(j / b, b, (n - 1) as nat)[q] by {
                assert(di[q + 1] == dj[q + 1]);
            }
        }
        lemma_digits_injective(i / b, j / b, b, (n - 1) as nat);
    } else {
        reveal(pow);
        assert(pow(b as int, 0) == 1);
    }
}

/// Different positions of the enumeration hold different codes.
pub proof fn lemma_nth_code_injective(i: nat, j: nat, colors: nat, columns: nat)
    requires
        0 < colors <= 255,
        i < code_count(colors, columns),
        j < code_count(colors, columns),
        i != j,
    ensures
        nth_code(i, colors, columns) != nth_code(j, colors, columns),
{
    if nth_code(i, colors, columns) == nth_code(j, colors, columns) {
        let di = digits_le(i, colors, columns);
        let dj = digits_le(j, colors, columns);
        assert(di.reverse().reverse() =~= di);
        assert(dj.reverse().reverse() =~= dj);
        lemma_digits_injective(i, j, colors, columns);
    }
}

/// The digits of zero are all zero.
proof fn lemma_digits_of_zero(b: nat, n: nat)
    requires
        0 < b,
    ensures
        digits_le(0, b, n) == zeros(n),
    decreases n,
{
    if n > 0 {
        lemma_digits_of_zero(b, (n - 1) as nat);
        lemma_digits_len(0, b, n);
        assert(digits_le(0, b, n) =~= zeros(n));
    }
}

/// The odometer step skips a prefix of maximal digits, resetting them to zero.
proof fn lemma_odometer_prefix(s: Seq<u8>, b: nat, i: int)
    requires
        0 <= i <= s.len(),
        forall|j: int| 0 <= j < i ==> s[j] == b - 1,
    ensures
        odometer_step(s, b) == zeros(i as nat) + odometer_step(s.subrange(i, s.len() as int), b),
    decreases i,
{
    if i > 0 {
        lemma_odometer_prefix(s.drop_first(), b, i - 1);
        assert(s.drop_first().subrange(i - 1, s.len() - 1) =~= s.subrange(i, s.len() as int));
        assert(odometer_step(s, b) =~= zeros(i as nat) + odometer_step(
            s.subrange(i, s.len() as int),
            b,
        ));
    } else {
        assert(s.subrange(0, s.len() as int) =~= s);
        assert(zeros(0) + odometer_step(s, b) =~= odometer_step(s, b));
    }
}

/// Advance the little-endian digits in `line` by one in base `colors`.
fn odometer_advance(line: &mut Vec<u8>, colors: u8)
    requires
        colors > 0,
        forall|j: int| 0 <= j < old(line)@.len() ==> old(line)@[j] < colors,
    ensures
        final(line)@ == odometer_step(old(line)@, colors as nat),
{
    let ghost s = line@;
    let n = line.len();
    let mut i: usize = 0;
    while i < n
        invariant_except_break
            n == s.len(),
            line@.len() == n,
            colors > 0,
            i <= n,
            forall|j: int| 0 <= j < i ==> s[j] == colors - 1,
            forall|j: int| 0 <= j < n ==> s[j] < colors,
            line@ == zeros(i as nat) + s.subrange(i as int, n as int),
            i == n ==> line@ == odometer_step(s, colors as nat),
        ensures
            line@ == odometer_step(s, colors as nat),
        decreases n - i,
    {
        if line[i] == colors - 1 {
            line.set(i, 0);
            i = i + 1;
            assert(line@ =~= zeros(i as nat) + s.subrange(i as int, n as int));
            proof {
                if i == n {
                    lemma_odometer_prefix(s, colors as nat, n as int);
                    assert(s.subrange(n as int, n as int) =~= Seq::<u8>::empty());
                    assert(zeros(n as nat) + Seq::<u8>::empty() =~= zeros(n as nat));
                }
            }
        } else {
            proof {
                lemma_odometer_prefix(s, colors as nat, i as int);
                assert(s.subrange(i as int, n as int).drop_first() =~= s.subrange(
                    i + 1,
                    n as int,
                ));
            }
            let v = line[i];
            line.set(i, v + 1);
            assert(line@ =~= odometer_step(s, colors as nat));
            break;
        }
    }
}

fn is_all_zero(line: &Vec<u8>) -> (r: bool)
    ensures
        r == (line@ == zeros(line@.len())),
{
    let mut i: usize = 0;
    while i < line.len()
        invariant
            i <= line@.len(),
            forall|j: int| 0 <= j < i ==> line@[j] == 0u8,
        decreases line@.len() - i,
    {
        if line[i] != 0 {
            assert(line@[i as int] != zeros(line@.len())[i as int]);
            return false;
        }
        i = i + 1;
    }
    assert(line@ =~= zeros(line@.len()));
    true
}

fn reversed(line: &Vec<u8>) -> (r: Vec<u8>)
    ensures
        r@ == line@.reverse(),
{
    let n = line.len();
    let mut r: Vec<u8> = Vec::new();
    let mut i: usize = 0;
    while i < n
        invariant
            n == line@.len(),
            i <= n,
            r@.len() == i,
            forall|j: int| 0 <= j < i ==> r@[j] == line@[n - 1 - j],
        decreases n - i,
    {
        r.push(line[n - 1 - i]);
        i = i + 1;
    }
    assert(r@ =~= line@.reverse());
    r
}

/// All codes of the configuration, in counting order: the `k`-th code is the
/// base-`colors` representation of `k`, most significant column first.
pub fn get_all_codes(configuration: &ConfigType) -> (all: Vec<CodeType>)
    requires
        configuration.colors > 0 || configuration.columns == 0,
        code_count(configuration.colors as nat, configuration.columns as nat) <= usize::MAX,
    ensures
        all@.len() == code_count(configuration.colors as nat, configuration.columns as nat),
        forall|k: int|
            0 <= k < all@.len() ==> #[trigger] all@[k]@ == nth_code(
                k as nat,
                configuration.colors as nat,
                configuration.columns as nat,
            ),
{
    let columns = configuration.columns;
    let colors = configuration.colors;
    let ghost b = colors as nat;
    let ghost n = columns as nat;

    let mut line: Vec<u8> = Vec::new();
    let mut j: usize = 0;
    while j < columns
        invariant
            j <= columns,
            line@ == zeros(j as nat),
        decreases columns - j,
    {
        line.push(0);
        j = j + 1;
        assert(line@ =~= zeros(j as nat));
    }
    let mut all_possible_lines: Vec<CodeType> = Vec::new();
    all_possible_lines.push(CodeType { entries: reversed(&line) });

    if columns == 0 {
        reveal(pow);
        assert(pow(b as int, 0) == 1);
        assert(line@ =~= digits_le(0, b, 0));
        return all_possible_lines;
    }
    proof {
        lemma_digits_of_zero(b, n);
        vstd::arithmetic::power::lemma_pow_positive(b as int, n);
    }
    let ghost mut k: nat = 0;
    loop
        invariant
            columns == n,
            columns == configuration.columns,
            colors == configuration.colors,
            line@.len() == n,
            colors == b,
            n > 0,
            b > 0,
            code_count(b, n) <= usize::MAX,
            k < code_count(b, n),
            line@ == digits_le(k, b, n),
            all_possible_lines@.len() == k + 1,
            forall|i: int|
                0 <= i < all_possible_lines@.len() ==> #[trigger] all_possible_lines@[i]@
                    == nth_code(i as nat, b, n),
        decreases code_count(b, n) - k,
    {
        proof {
            lemma_digits_bound(k, b, n);
        }
        odometer_advance(&mut line, colors);
        proof {
            lemma_digits_succ(k, b, n);
            lemma_digits_len(k + 1, b, n);
        }
        if is_all_zero(&line) {
            proof {
                if k + 1 < code_count(b, n) {
                    lemma_digits_zero_only(k + 1, b, n);
                }
            }
            return all_possible_lines;
        }
        proof {
            if k + 1 == code_count(b, n) {
                lemma_digits_wrap(b, n);
            }
        }
        all_possible_lines.push(CodeType { entries: reversed(&line) });
        proof {
            k = k + 1;
        }
    }
}

// ---------------------------------------------------------------------------
// Random codes
// ---------------------------------------------------------------------------

#[verifier::external_type_specification]
#[verifier::external_body]
pub struct ExThreadRng(rand::rngs::ThreadRng);

/// `rand::rng`: a handle on the thread-local random number generator.
#[verifier::external_body]
fn thread_rng() -> ThreadRng {
    rand::rng()
}

/// `Rng::random_range` on `0..colors`: a color drawn uniformly at random;
/// the contract states only that it is one of the configuration's colors.
#[verifier::external_body]
fn random_color(rng: &mut ThreadRng, colors: u8) -> (c: u8)
    requires
        colors > 0,
    ensures
        c < colors,
{
    rng.random_range(0..colors)
}

/// Random code generator: one random color per column.
pub fn generate_code(configuration: &ConfigType) -> (code: CodeType)
    requires
        configuration.colors > 0 || configuration.columns == 0,
    ensures
        code@.len() == configuration.columns,
        forall|i: int| 0 <= i < code@.len() ==> code@[i] < configuration.colors,
{
    let mut raw_code: Vec<u8> = Vec::new();
    let mut i: usize = 0;
    while i < configuration.columns
        invariant
            configuration.colors > 0 || configuration.columns == 0,
            i <= configuration.columns,
            raw_code@.len() == i,
            forall|k: int| 0 <= k < i ==> raw_code@[k] < configuration.colors,
        decreases configuration.columns - i,
    {
        let mut rng = thread_rng();
        raw_code.push(random_color(&mut rng, configuration.colors));
        i = i + 1;
    }
    CodeType::new(raw_code)
}

} // verus!
