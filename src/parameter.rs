//! Command-line parameters: their names, types, defaults and the rules that
//! decide which values they accept.
use crate::radix::{lemma_value_take_step, value_of};
use crate::text::push_char;
use vstd::prelude::*;

verus! {

/// The kinds of value a parameter can take.
#[derive(Debug, Clone, Copy, PartialEq, Eq, Structural)]
pub enum ParameterType {
    NUMBER,
    STRING,
    ENUM,
    BOOLEAN,
}

/// A parameter's value.
#[derive(Debug, Clone, PartialEq, Eq)]
pub enum ParameterValue {
    String(String),
    Number(u64),
    Boolean(bool),
}

/// What a parameter value holds, as plain mathematical values.
pub enum ValueView {
    Text(Seq<char>),
    Number(nat),
    Boolean(bool),
}

impl View for ParameterValue {
    type V = ValueView;

    open spec fn view(&self) -> ValueView {
        match self {
            ParameterValue::String(s) => ValueView::Text(s@),
            ParameterValue::Number(n) => ValueView::Number(*n as nat),
            ParameterValue::Boolean(b) => ValueView::Boolean(*b),
        }
    }
}

/// The decimal digits of `n`, most significant first, without leading zeros
/// (a single `0` for zero).
pub open spec fn decimal_digits(n: nat) -> Seq<nat>
    decreases n,
{
    if n < 10 {
        seq![n]
    } else {
        decimal_digits(n / 10).push(n % 10)
    }
}

/// The character of the decimal digit `d`.
pub open spec fn digit_char(d: nat) -> char {
    seq!['0', '1', '2', '3', '4', '5', '6', '7', '8', '9'][d as int]
}

/// `n` written in decimal.
pub open spec fn decimal_text(n: nat) -> Seq<char> {
    decimal_digits(n).map_values(|d: nat| digit_char(d))
}

/// The text of a parameter value: the string itself, a number in decimal,
/// `true` or `false`.
pub open spec fn value_text(v: ValueView) -> Seq<char> {
    match v {
        ValueView::Text(s) => s,
        ValueView::Number(n) => decimal_text(n),
        ValueView::Boolean(b) => if b {
            seq!['t', 'r', 'u', 'e']
        } else {
            seq!['f', 'a', 'l', 's', 'e']
        },
    }
}

/// `c` is an ASCII decimal digit.
pub open spec fn is_decimal_digit(c: char) -> bool {
    '0' <= c <= '9'
}

/// `s` without one leading `+`, if it has one.
pub open spec fn unsigned_part(s: Seq<char>) -> Seq<char> {
    if s.len() > 0 && s[0] == '+' {
        s.drop_first()
    } else {
        s
    }
}

/// `d` is one or more decimal digits.
pub open spec fn all_decimal(d: Seq<char>) -> bool {
    d.len() > 0 && forall|i: int| 0 <= i < d.len() ==> is_decimal_digit(#[trigger] d[i])
}

/// The values of the decimal digits `d`.
pub open spec fn digit_values(d: Seq<char>) -> Seq<nat> {
    d.map_values(|c: char| (c as nat - '0' as nat) as nat)
}

/// The number that the decimal text `s` denotes: one or more decimal digits,
/// after an optional `+`.
pub open spec fn parse_decimal(s: Seq<char>) -> Option<nat> {
    if all_decimal(unsigned_part(s)) {
        Some(value_of(digit_values(unsigned_part(s)), 10))
    } else {
        None
    }
}

/// `n` lies in the inclusive range `r`.
pub open spec fn in_range(r: (u64, u64), n: nat) -> bool {
    r.0 <= n <= r.1
}

/// The text of a boolean value.
pub open spec fn parse_boolean(s: Seq<char>) -> Option<bool> {
    if s == seq!['t', 'r', 'u', 'e'] || s.len() == 0 {
        Some(true)
    } else if s == seq!['f', 'a', 'l', 's', 'e'] {
        Some(false)
    } else {
        None
    }
}

/// The views of a list of strings.
pub open spec fn texts(v: Seq<String>) -> Seq<Seq<char>> {
    v.map_values(|s: String| s@)
}

/// `names` each after `prefix`, separated by `", "`.
pub open spec fn join_prefixed(names: Seq<Seq<char>>, prefix: Seq<char>) -> Seq<char>
    decreases names.len(),
{
    if names.len() == 0 {
        Seq::empty()
    } else if names.len() == 1 {
        prefix + names[0]
    } else {
        join_prefixed(names.drop_last(), prefix) + seq![',', ' '] + prefix + names.last()
    }
}

/// A command-line parameter.
#[derive(Debug, Clone)]
pub struct Parameter {
    pub long_names: Vec<String>,
    pub short_names: Vec<String>,
    pub description: String,
    pub types: Vec<ParameterType>,
    pub default_value: ParameterValue,
    pub value: Option<ParameterValue>,
    /// Inclusive ranges a number must fall in, if any are set.
    pub allowed_number_values: Option<Vec<(u64, u64)>>,
    /// The values an enumeration accepts.
    pub allowed_string_values: Option<Vec<String>>,
    /// A string value must name a file or a path where nothing exists yet.
    pub checks_path: bool,
}

impl Parameter {
    /// `n` lies in one of the allowed ranges, or no ranges are set.
    pub open spec fn number_allowed(&self, n: nat) -> bool {
        match self.allowed_number_values {
            None => true,
            Some(ranges) => exists|i: int|
                0 <= i < ranges@.len() && #[trigger] in_range(ranges@[i], n),
        }
    }

    /// The value that `text` sets, if the parameter accepts it. The types are
    /// tried in the order number, boolean, enumeration, string; a string
    /// that must name a path is accepted when `path_accepted` holds.
    pub open spec fn accepted(&self, text: Seq<char>, path_accepted: bool) -> Option<ValueView> {
        if self.types@.contains(ParameterType::NUMBER) && parse_decimal(text) is Some
            && parse_decimal(text)->Some_0 <= u64::MAX && self.number_allowed(
            parse_decimal(text)->Some_0,
        ) {
            Some(ValueView::Number(parse_decimal(text)->Some_0))
        } else if self.types@.contains(ParameterType::BOOLEAN) && parse_boolean(text) is Some {
            Some(ValueView::Boolean(parse_boolean(text)->Some_0))
        } else if self.types@.contains(ParameterType::ENUM) && self.allowed_string_values is Some
            && texts(self.allowed_string_values->Some_0@).contains(text) {
            Some(ValueView::Text(text))
        } else if self.types@.contains(ParameterType::STRING) && (!self.checks_path
            || path_accepted) {
            Some(ValueView::Text(text))
        } else {
            None
        }
    }

    /// The value set, or else the default.
    pub fn get_value(&self) -> (r: &ParameterValue)
        ensures
            r == match self.value {
                Some(v) => v,
                None => self.default_value,
            },
    {
        match &self.value {
            Some(v) => v,
            None => &self.default_value,
        }
    }

    /// Sets the value from its text, if the parameter accepts it. For a
    /// string parameter that must name a path, `path_accepted` is the
    /// verdict of that check on `value`.
    pub fn set_value(&mut self, value: &String, path_accepted: bool) -> (r: Result<(), &'static str>)
        ensures
            match old(self).accepted(value@, path_accepted) {
                Some(v) => r is Ok && (final(self).value matches Some(x) && x@ == v),
                None => (r matches Err(e) && e@ == "Value isn't valid"@) && *final(self)
                    == *old(self),
            },
            final(self).long_names == old(self).long_names,
            final(self).description == old(self).description,
            final(self).short_names == old(self).short_names,
            final(self).types == old(self).types,
            final(self).default_value == old(self).default_value,
            final(self).allowed_number_values == old(self).allowed_number_values,
            final(self).allowed_string_values == old(self).allowed_string_values,
            final(self).checks_path == old(self).checks_path,
    {
        if self.has(&ParameterType::NUMBER).is_some() {
            if let Some(n) = parse_number(value) {
                if self.number_in_ranges(n) {
                    self.value = Some(ParameterValue::Number(n));
                    return Ok(());
                }
            }
        }
        if self.has(&ParameterType::BOOLEAN).is_some() {
            if let Some(b) = parse_flag(value) {
                self.value = Some(ParameterValue::Boolean(b));
                return Ok(());
            }
        }
        if self.has(&ParameterType::ENUM).is_some() {
            let listed = match &self.allowed_string_values {
                Some(list) => contains_text(list, value),
                None => false,
            };
            if listed {
                self.value = Some(ParameterValue::String(value.clone()));
                return Ok(());
            }
        }
        if self.has(&ParameterType::STRING).is_some() && (!self.checks_path || path_accepted) {
            self.value = Some(ParameterValue::String(value.clone()));
            return Ok(());
        }
        Err("Value isn't valid")
    }

    fn number_in_ranges(&self, n: u64) -> (r: bool)
        ensures
            r == self.number_allowed(n as nat),
    {
        match &self.allowed_number_values {
            None => true,
            Some(ranges) => {
                let mut i: usize = 0;
                while i < ranges.len()
                    invariant
                        self.allowed_number_values == Some(*ranges),
                        i <= ranges@.len(),
                        forall|j: int| 0 <= j < i ==> !#[trigger] in_range(ranges@[j], n as nat),
                    decreases ranges.len() - i,
                {
                    if ranges[i].0 <= n && n <= ranges[i].1 {
                        assert(in_range(ranges@[i as int], n as nat));
                        assert(exists|k: int|
                            0 <= k < ranges@.len() && #[trigger] in_range(ranges@[k], n as nat));
                        assert(self.number_allowed(n as nat)) by {
                            let rs = self.allowed_number_values->Some_0;
                            assert(rs@ == ranges@);
                            assert(in_range(rs@[i as int], n as nat));
                        }
                        return true;
                    }
                    i += 1;
                }
                false
            },
        }
    }

    /// The long names, each after `--`, separated by `", "`.
    pub fn get_long_names(&self) -> (r: String)
        ensures
            r@ == join_prefixed(texts(self.long_names@), seq!['-', '-']),
    {
        join_names(&self.long_names, 2)
    }

    /// The short names, each after `-`, separated by `", "`.
    pub fn get_short_names(&self) -> (r: String)
        ensures
            r@ == join_prefixed(texts(self.short_names@), seq!['-']),
    {
        join_names(&self.short_names, 1)
    }

    /// `name` is one of the parameter's long or short names.
    pub fn is(&self, name: &String) -> (r: bool)
        ensures
            r == (texts(self.long_names@).contains(name@) || texts(self.short_names@).contains(
                name@,
            )),
    {
        contains_text(&self.long_names, name) || contains_text(&self.short_names, name)
    }

    /// `Some(())` when the parameter takes values of type `t`.
    pub fn has(&self, t: &ParameterType) -> (r: Option<()>)
        ensures
            r is Some <==> self.types@.contains(*t),
    {
        let mut i: usize = 0;
        while i < self.types.len()
            invariant
                i <= self.types@.len(),
                forall|j: int| 0 <= j < i ==> self.types@[j] != *t,
            decreases self.types.len() - i,
        {
            if self.types[i] == *t {
                return Some(());
            }
            i += 1;
        }
        None
    }
}

/// `list` holds a string equal to `s`.
fn contains_text(list: &Vec<String>, s: &String) -> (r: bool)
    ensures
        r == texts(list@).contains(s@),
{
    let mut i: usize = 0;
    while i < list.len()
        invariant
            i <= list@.len(),
            forall|j: int| 0 <= j < i ==> list@[j]@ != s@,
        decreases list.len() - i,
    {
        if list[i] == *s {
            assert(texts(list@)[i as int] == s@);
            return true;
        }
        i += 1;
    }
    assert forall|j: int| 0 <= j < texts(list@).len() implies texts(list@)[j] != s@ by {
        assert(texts(list@)[j] == list@[j]@);
    }
    false
}

/// Appends `dashes` dashes.
fn push_dashes(out: &mut String, dashes: usize)
    requires
        dashes == 1 || dashes == 2,
    ensures
        final(out)@ == old(out)@ + (if dashes == 1 {
            seq!['-']
        } else {
            seq!['-', '-']
        }),
{
    push_char(out, '-');
    if dashes == 2 {
        push_char(out, '-');
    }
    assert(final(out)@ =~= old(out)@ + (if dashes == 1 {
        seq!['-']
    } else {
        seq!['-', '-']
    }));
}

fn append_text(out: &mut String, s: &String)
    ensures
        final(out)@ == old(out)@ + s@,
{
    let n = s.unicode_len();
    let mut i: usize = 0;
    while i < n
        invariant
            n == s@.len(),
            i <= n,
            out@ == old(out)@ + s@.take(i as int),
        decreases n - i,
    {
        let c = s.as_str().get_char(i);
        push_char(out, c);
        assert(s@.take(i + 1) =~= s@.take(i as int).push(c));
        i += 1;
    }
    assert(s@.take(n as int) =~= s@);
}

fn join_names(names: &Vec<String>, dashes: usize) -> (r: String)
    requires
        dashes == 1 || dashes == 2,
    ensures
        r@ == join_prefixed(
            texts(names@),
            if dashes == 1 {
                seq!['-']
            } else {
                seq!['-', '-']
            },
        ),
{
    let ghost prefix = if dashes == 1 {
        seq!['-']
    } else {
        seq!['-', '-']
    };
    let mut out = String::new();
    let mut i: usize = 0;
    while i < names.len()
        invariant
            dashes == 1 || dashes == 2,
            prefix == (if dashes == 1 {
                seq!['-']
            } else {
                seq!['-', '-']
            }),
            i <= names@.len(),
            out@ == join_prefixed(texts(names@).take(i as int), prefix),
        decreases names.len() - i,
    {
        let ghost before = out@;
        if i > 0 {
            push_char(&mut out, ',');
            push_char(&mut out, ' ');
        }
        push_dashes(&mut out, dashes);
        append_text(&mut out, &names[i]);
        proof {
            let t = texts(names@).take(i + 1);
            assert(t.drop_last() =~= texts(names@).take(i as int));
            assert(t.last() == names@[i as int]@);
            if i == 0 {
                assert(out@ =~= prefix + t[0]);
            } else {
                assert(out@ =~= before + seq![',', ' '] + prefix + t.last());
            }
        }
        i += 1;
    }
    assert(texts(names@).take(names@.len() as int) =~= texts(names@));
    out
}

/// The number that `s` denotes in decimal, if it is one that fits in 64 bits.
fn parse_number(s: &String) -> (r: Option<u64>)
    ensures
        match parse_decimal(s@) {
            Some(n) => n <= u64::MAX ==> r == Some(n as u64),
            None => r is None,
        },
        r is Some ==> parse_decimal(s@) is Some && parse_decimal(s@)->Some_0 <= u64::MAX,
{
    let n = s.unicode_len();
    let text = s.as_str();
    let mut from: usize = 0;
    if n > 0 && text.get_char(0) == '+' {
        from = 1;
    }
    let ghost digits = unsigned_part(s@);
    assert(digits =~= s@.subrange(from as int, n as int));
    if from >= n {
        return None;
    }
    let ghost values = digit_values(digits);
    let mut v: u64 = 0;
    let mut i: usize = from;
    let mut overflow = false;
    while i < n
        invariant
            n == s@.len(),
            text@ == s@,
            from <= i <= n,
            from < n,
            digits == s@.subrange(from as int, n as int),
            values == digit_values(digits),
            digits == unsigned_part(s@),
            forall|j: int| 0 <= j < i - from ==> is_decimal_digit(#[trigger] digits[j]),
            !overflow ==> v == value_of(values.take(i - from), 10),
            overflow ==> value_of(values.take(i - from), 10) > u64::MAX,
        decreases n - i,
    {
        let c = text.get_char(i);
        if !('0' <= c && c <= '9') {
            assert(!is_decimal_digit(digits[i - from]));
            return None;
        }
        let d = (c as u32 - '0' as u32) as u64;
        proof {
            lemma_value_take_step(values, 10, (i - from) as nat);
            assert(values[i - from] == d as nat);
        }
        if !overflow {
            match v.checked_mul(10) {
                None => {
                    overflow = true;
                },
                Some(m) => match m.checked_add(d) {
                    None => {
                        overflow = true;
                    },
                    Some(x) => {
                        v = x;
                    },
                },
            }
        } else {
            assert(value_of(values.take(i - from), 10) * 10 + d >= value_of(values.take(i - from), 10));
        }
        i += 1;
    }
    assert(values.take(n - from) =~= values);
    if overflow {
        None
    } else {
        Some(v)
    }
}

fn equals_text(s: &String, exec_lit: &str) -> (r: bool)
    ensures
        r == (s@ == exec_lit@),
{
    let ghost lit = exec_lit@;
    let n = s.unicode_len();
    let m = exec_lit.unicode_len();
    if n != m {
        return false;
    }
    let text = s.as_str();
    let mut i: usize = 0;
    while i < n
        invariant
            n == s@.len(),
            m == lit.len(),
            n == m,
            exec_lit@ == lit,
            text@ == s@,
            i <= n,
            forall|j: int| 0 <= j < i ==> s@[j] == lit[j],
        decreases n - i,
    {
        if text.get_char(i) != exec_lit.get_char(i) {
            return false;
        }
        i += 1;
    }
    assert(s@ =~= lit);
    true
}

/// The boolean that `s` spells: `true` (or nothing) and `false`.
fn parse_flag(s: &String) -> (r: Option<bool>)
    ensures
        r == parse_boolean(s@),
{
    proof {
        reveal_strlit("true");
        reveal_strlit("false");
    }
    assert("true"@ =~= seq!['t', 'r', 'u', 'e']);
    assert("false"@ =~= seq!['f', 'a', 'l', 's', 'e']);
    if s.unicode_len() == 0 || equals_text(s, "true") {
        Some(true)
    } else if equals_text(s, "false") {
        Some(false)
    } else {
        None
    }
}

/// The position of the first parameter of `ps` named `name`.
pub open spec fn first_named(ps: Seq<Parameter>, name: Seq<char>) -> Option<int>
    decreases ps.len(),
{
    if ps.len() == 0 {
        None
    } else {
        match first_named(ps.drop_last(), name) {
            Some(i) => Some(i),
            None => if names_include(ps.last(), name) {
                Some(ps.len() - 1)
            } else {
                None
            },
        }
    }
}

/// `name` is one of the long or short names of `p`.
pub open spec fn names_include(p: Parameter, name: Seq<char>) -> bool {
    texts(p.long_names@).contains(name) || texts(p.short_names@).contains(name)
}

fn position_named(parameters: &Vec<Parameter>, name: &String) -> (r: Option<usize>)
    ensures
        match first_named(parameters@, name@) {
            Some(i) => (r matches Some(k) && k as int == i) && 0 <= i < parameters@.len(),
            None => r is None,
        },
{
    let mut i: usize = 0;
    while i < parameters.len()
        invariant
            i <= parameters@.len(),
            first_named(parameters@.take(i as int), name@) is None,
        decreases parameters.len() - i,
    {
        let found = parameters[i].is(name);
        proof {
            lemma_first_named_prefix(parameters@, name@, i as int);
        }
        if found {
            proof {
                lemma_first_named_extends(parameters@, name@, i as int + 1);
            }
            return Some(i);
        }
        i += 1;
    }
    assert(parameters@.take(i as int) =~= parameters@);
    None
}

proof fn lemma_first_named_prefix(ps: Seq<Parameter>, name: Seq<char>, i: int)
    requires
        0 <= i < ps.len(),
        first_named(ps.take(i), name) is None,
    ensures
        first_named(ps.take(i + 1), name) == (if names_include(ps[i], name) {
            Some(i)
        } else {
            None
        }),
{
    assert(ps.take(i + 1).drop_last() =~= ps.take(i));
}

proof fn lemma_first_named_extends(ps: Seq<Parameter>, name: Seq<char>, k: int)
    requires
        0 <= k <= ps.len(),
        first_named(ps.take(k), name) is Some,
    ensures
        first_named(ps, name) == first_named(ps.take(k), name),
    decreases ps.len() - k,
{
    if k < ps.len() {
        assert(ps.take(k + 1).drop_last() =~= ps.take(k));
        lemma_first_named_extends(ps, name, k + 1);
    } else {
        assert(ps.take(k) =~= ps);
    }
}

/// The first parameter named `name`, to be changed in place.
pub fn get_named_parameter<'a>(parameters: &'a mut Vec<Parameter>, name: &String) -> (r: Option<
    &'a mut Parameter,
>)
    ensures
        first_named(old(parameters)@, name@) is None ==> r is None,
        first_named(old(parameters)@, name@) is None ==> final(parameters)@ == old(parameters)@,
        first_named(old(parameters)@, name@) is Some ==> r is Some,
        match r {
            Some(p) => {
                let i = first_named(old(parameters)@, name@)->Some_0;
                &&& *p == old(parameters)@[i]
                &&& final(parameters)@ == old(parameters)@.update(i, *final(p))
            },
            None => true,
        },
{
    match position_named(parameters, name) {
        Some(i) => {
            Some(&mut parameters[i])
        },
        None => None,
    }
}

/// `s` without its leading dashes.
pub open spec fn strip_dashes(s: Seq<char>) -> Seq<char>
    decreases s.len(),
{
    if s.len() > 0 && s[0] == '-' {
        strip_dashes(s.drop_first())
    } else {
        s
    }
}

/// The name and the value of the command-line argument `arg`: the text
/// after its leading dashes, split at its first `=` (an empty value when it
/// has none). An argument that does not start with a dash has neither.
pub open spec fn argument_parts(arg: Seq<char>) -> Option<(Seq<char>, Seq<char>)> {
    if arg.len() == 0 || arg[0] != '-' {
        None
    } else {
        let body = strip_dashes(arg);
        if body.contains('=') {
            let k = choose|k: int| 0 <= k < body.len() && body[k] == '=' && forall|j: int|
                0 <= j < k ==> body[j] != '=';
            Some((body.take(k), body.skip(k + 1)))
        } else {
            Some((body, Seq::empty()))
        }
    }
}

/// Splits the command-line argument `arg` into a parameter name and a value.
pub fn split_argument(arg: &String) -> (r: Option<(String, String)>)
    ensures
        match argument_parts(arg@) {
            Some(parts) => r matches Some(x) && x.0@ == parts.0 && x.1@ == parts.1,
            None => r is None,
        },
{
    let text = arg.as_str();
    let n = text.unicode_len();
    if n == 0 || text.get_char(0) != '-' {
        return None;
    }
    let mut start: usize = 0;
    assert(arg@.skip(0) =~= arg@);
    while start < n && text.get_char(start) == '-'
        invariant
            n == arg@.len(),
            text@ == arg@,
            start <= n,
            strip_dashes(arg@) == strip_dashes(arg@.skip(start as int)),
        decreases n - start,
    {
        assert(arg@.skip(start as int).drop_first() =~= arg@.skip(start + 1));
        start += 1;
    }
    let ghost body = arg@.skip(start as int);
    assert(strip_dashes(body) == body);
    let mut eq = start;
    while eq < n && text.get_char(eq) != '='
        invariant
            n == arg@.len(),
            text@ == arg@,
            start <= eq <= n,
            body == arg@.skip(start as int),
            forall|j: int| 0 <= j < eq - start ==> body[j] != '=',
        decreases n - eq,
    {
        eq += 1;
    }
    let name = text.substring_char(start, eq).to_owned();
    assert(name@ =~= body.take(eq - start));
    if eq == n {
        assert(!body.contains('='));
        assert(body.take(eq - start) =~= body);
        return Some((name, String::new()));
    }
    let value = text.substring_char(eq + 1, n).to_owned();
    proof {
        let k = eq - start;
        assert(body[k] == '=');
        assert(body.contains('='));
        let c = choose|c: int| 0 <= c < body.len() && body[c] == '=' && forall|j: int|
            0 <= j < c ==> body[j] != '=';
        assert(c == k) by {
            if c < k {
                assert(body[c] != '=');
            } else if c > k {
                assert(body[k] != '=');
            }
        }
        assert(value@ =~= body.skip(k + 1));
    }
    Some((name, value))
}

/// Relies on `num_cpus::get`: the number of logical processors available,
/// at least 1 as its documentation states.
#[verifier::external_body]
fn available_threads() -> (r: usize)
    ensures
        r >= 1,
{
    num_cpus::get()
}

fn text_of(s: &str) -> (r: String)
    ensures
        r@ == s@,
{
    s.to_owned()
}

fn named(long: &str, short: &str) -> (r: (Vec<String>, Vec<String>))
    ensures
        r.0@.len() == 1 && r.0@[0]@ == long@,
        r.1@.len() == 1 && r.1@[0]@ == short@,
{
    let mut l: Vec<String> = Vec::new();
    l.push(text_of(long));
    let mut s: Vec<String> = Vec::new();
    s.push(text_of(short));
    (l, s)
}

fn one_range(lo: u64, hi: u64) -> (r: Option<Vec<(u64, u64)>>)
    ensures
        r matches Some(v) && v@ == seq![(lo, hi)],
{
    let mut v: Vec<(u64, u64)> = Vec::new();
    v.push((lo, hi));
    assert(v@ =~= seq![(lo, hi)]);
    Some(v)
}

fn one_type(t: ParameterType) -> (r: Vec<ParameterType>)
    ensures
        r@ == seq![t],
{
    let mut v: Vec<ParameterType> = Vec::new();
    v.push(t);
    assert(v@ =~= seq![t]);
    v
}

/// `p` is unset, has the one long name `long`, the one short name `short`,
/// the description `description`, the one type `t`, the allowed number
/// ranges `ranges`, no enumeration values, and checks paths when
/// `checks_path` holds.
pub open spec fn has_shape(
    p: Parameter,
    long: Seq<char>,
    short: Seq<char>,
    description: Seq<char>,
    t: ParameterType,
    ranges: Option<Seq<(u64, u64)>>,
    checks_path: bool,
) -> bool {
    &&& p.long_names@.len() == 1
    &&& p.long_names@[0]@ == long
    &&& p.short_names@.len() == 1
    &&& p.short_names@[0]@ == short
    &&& p.description@ == description
    &&& p.types@ == seq![t]
    &&& p.value is None
    &&& match ranges {
        None => p.allowed_number_values is None,
        Some(rs) => p.allowed_number_values matches Some(v) && v@ == rs,
    }
    &&& p.allowed_string_values is None
    &&& p.checks_path == checks_path
}

/// The program's parameters, each at its default: the password length
/// range, the password and chain files, the chain file's byte budget, the
/// thread count (by default the number of available processors), the rounds
/// per chain, and help.
pub fn default_parameters() -> (r: Vec<Parameter>)
    ensures
        r@.len() == 8,
        has_shape(
            r@[0],
            "min-password-length"@,
            "mip"@,
            "Minimum length of the passwords."@,
            ParameterType::NUMBER,
            Some(seq![(1u64, 8u64)]),
            false,
        ),
        r@[0].default_value@ == ValueView::Number(6),
        has_shape(
            r@[1],
            "max-password-length"@,
            "map"@,
            "Maximum length of the passwords."@,
            ParameterType::NUMBER,
            Some(seq![(6u64, 12u64)]),
            false,
        ),
        r@[1].default_value@ == ValueView::Number(8),
        has_shape(
            r@[2],
            "password-file"@,
            "pf"@,
            "Path to the file containing / where the store the passwords."@,
            ParameterType::STRING,
            None,
            true,
        ),
        r@[2].default_value@ == ValueView::Text("./passwords.txt"@),
        has_shape(
            r@[3],
            "hash-file"@,
            "hf"@,
            "Path to the file containing / where to store the hashes."@,
            ParameterType::STRING,
            None,
            true,
        ),
        r@[3].default_value@ == ValueView::Text("./hashes.txt"@),
        has_shape(
            r@[4],
            "max-hash-file-size"@,
            "mhfs"@,
            "Maximum size in bytes of the file containing the hashes. '0' to disable."@,
            ParameterType::NUMBER,
            Some(seq![(0u64, MAX_HASH_FILE_SIZE)]),
            false,
        ),
        r@[4].default_value@ == ValueView::Number(0),
        has_shape(
            r@[5],
            "threads"@,
            "t"@,
            "Number of concurrent threads. Defaults to # of threads."@,
            ParameterType::NUMBER,
            Some(seq![(1u64, 128u64)]),
            false,
        ),
        r@[5].default_value matches ParameterValue::Number(n) && n >= 1,
        has_shape(
            r@[6],
            "reduction-rounds"@,
            "rr"@,
            "Number of times the hash has to go trough the reducction function."@,
            ParameterType::NUMBER,
            Some(seq![(1u64, 1_000_000u64)]),
            false,
        ),
        r@[6].default_value@ == ValueView::Number(1000),
        has_shape(
            r@[7],
            "help"@,
            "h"@,
            "Prints this help message."@,
            ParameterType::BOOLEAN,
            None,
            false,
        ),
        r@[7].default_value@ == ValueView::Boolean(false),
{
    let mut ps: Vec<Parameter> = Vec::new();
    let (l, s) = named("min-password-length", "mip");
    ps.push(Parameter {
        long_names: l,
        short_names: s,
        description: text_of("Minimum length of the passwords."),
        types: one_type(ParameterType::NUMBER),
        default_value: ParameterValue::Number(6),
        value: None,
        allowed_number_values: one_range(1, 8),
        allowed_string_values: None,
        checks_path: false,
    });
    let (l, s) = named("max-password-length", "map");
    ps.push(Parameter {
        long_names: l,
        short_names: s,
        description: text_of("Maximum length of the passwords."),
        types: one_type(ParameterType::NUMBER),
        default_value: ParameterValue::Number(8),
        value: None,
        allowed_number_values: one_range(6, 12),
        allowed_string_values: None,
        checks_path: false,
    });
    let (l, s) = named("password-file", "pf");
    ps.push(Parameter {
        long_names: l,
        short_names: s,
        description: text_of("Path to the file containing / where the store the passwords."),
        types: one_type(ParameterType::STRING),
        default_value: ParameterValue::String(text_of("./passwords.txt")),
        value: None,
        allowed_number_values: None,
        allowed_string_values: None,
        checks_path: true,
    });
    let (l, s) = named("hash-file", "hf");
    ps.push(Parameter {
        long_names: l,
        short_names: s,
        description: text_of("Path to the file containing / where to store the hashes."),
        types: one_type(ParameterType::STRING),
        default_value: ParameterValue::String(text_of("./hashes.txt")),
        value: None,
        allowed_number_values: None,
        allowed_string_values: None,
        checks_path: true,
    });
    let (l, s) = named("max-hash-file-size", "mhfs");
    ps.push(Parameter {
        long_names: l,
        short_names: s,
        description: text_of("Maximum size in bytes of the file containing the hashes. '0' to disable."),
        types: one_type(ParameterType::NUMBER),
        default_value: ParameterValue::Number(0),
        value: None,
        allowed_number_values: one_range(0, MAX_HASH_FILE_SIZE),
        allowed_string_values: None,
        checks_path: false,
    });
    let (l, s) = named("threads", "t");
    ps.push(Parameter {
        long_names: l,
        short_names: s,
        description: text_of("Number of concurrent threads. Defaults to # of threads."),
        types: one_type(ParameterType::NUMBER),
        default_value: ParameterValue::Number(available_threads() as u64),
        value: None,
        allowed_number_values: one_range(1, 128),
        allowed_string_values: None,
        checks_path: false,
    });
    let (l, s) = named("reduction-rounds", "rr");
    ps.push(Parameter {
        long_names: l,
        short_names: s,
        description: text_of("Number of times the hash has to go trough the reducction function."),
        types: one_type(ParameterType::NUMBER),
        default_value: ParameterValue::Number(1000),
        value: None,
        allowed_number_values: one_range(1, 1_000_000),
        allowed_string_values: None,
        checks_path: false,
    });
    let (l, s) = named("help", "h");
    ps.push(Parameter {
        long_names: l,
        short_names: s,
        description: text_of("Prints this help message."),
        types: one_type(ParameterType::BOOLEAN),
        default_value: ParameterValue::Boolean(false),
        value: None,
        allowed_number_values: None,
        allowed_string_values: None,
        checks_path: false,
    });
    ps
}

/// The largest byte budget the chain file may be given: 33 bytes per digest
/// for a billion digests.
pub const MAX_HASH_FILE_SIZE: u64 = 33_000_000_000;

/// The value of `p`: the one set, or else the default.
pub open spec fn current_value(p: Parameter) -> ParameterValue {
    match p.value {
        Some(v) => v,
        None => p.default_value,
    }
}

/// The parameter named `help` is set to `true`.
pub open spec fn help_flag_set(ps: Seq<Parameter>) -> bool {
    match first_named(ps, seq!['h', 'e', 'l', 'p']) {
        Some(i) => current_value(ps[i]) == ParameterValue::Boolean(true),
        None => false,
    }
}

/// Help is shown when the program got no arguments (`argument_count`
/// counts the program itself) or when `help` is set.
pub fn help_requested(parameters: &Vec<Parameter>, argument_count: usize) -> (r: bool)
    ensures
        r == (argument_count <= 1 || help_flag_set(parameters@)),
{
    if argument_count <= 1 {
        return true;
    }
    proof {
        reveal_strlit("help");
    }
    let name = text_of("help");
    assert(name@ =~= seq!['h', 'e', 'l', 'p']);
    match position_named(parameters, &name) {
        None => false,
        Some(i) => match parameters[i].get_value() {
            ParameterValue::Boolean(b) => *b,
            _ => false,
        },
    }
}

fn append_str(out: &mut String, s: &str)
    ensures
        final(out)@ == old(out)@ + s@,
{
    let n = s.unicode_len();
    let mut i: usize = 0;
    while i < n
        invariant
            n == s@.len(),
            i <= n,
            out@ == old(out)@ + s@.take(i as int),
        decreases n - i,
    {
        let c = s.get_char(i);
        push_char(out, c);
        assert(s@.take(i + 1) =~= s@.take(i as int).push(c));
        i += 1;
    }
    assert(s@.take(n as int) =~= s@);
}

/// `n` in decimal.
fn decimal(n: u64) -> (r: String)
    ensures
        r@ == decimal_text(n as nat),
{
    let symbols = "0123456789";
    proof {
        reveal_strlit("0123456789");
    }
    assert(symbols@ =~= seq!['0', '1', '2', '3', '4', '5', '6', '7', '8', '9']);
    let ghost all = decimal_digits(n as nat);
    let mut q: u64 = n;
    let mut low_first: Vec<u8> = Vec::new();
    let ghost mut tail: Seq<nat> = Seq::empty();
    while q >= 10
        invariant
            all == decimal_digits(q as nat) + tail,
            low_first@.len() == tail.len(),
            forall|j: int| 0 <= j < tail.len() ==> #[trigger] tail[j] == low_first@[tail.len() - 1 - j] as nat,
            forall|j: int| 0 <= j < tail.len() ==> #[trigger] tail[j] < 10,
        decreases q,
    {
        let d = q % 10;
        assert(decimal_digits(q as nat) == decimal_digits((q / 10) as nat).push(d as nat));
        assert(decimal_digits((q / 10) as nat).push(d as nat) + tail =~= decimal_digits(
            (q / 10) as nat,
        ) + (seq![d as nat] + tail));
        proof {
            tail = seq![d as nat] + tail;
        }
        low_first.push(d as u8);
        q = q / 10;
    }
    assert(decimal_digits(q as nat) == seq![q as nat]);
    proof {
        tail = seq![q as nat] + tail;
    }
    low_first.push(q as u8);
    assert(all =~= tail);
    let len = low_first.len();
    let mut out = String::new();
    let mut k: usize = 0;
    while k < len
        invariant
            symbols@ == seq!['0', '1', '2', '3', '4', '5', '6', '7', '8', '9'],
            len == low_first@.len(),
            len == tail.len(),
            all == tail,
            forall|j: int| 0 <= j < len ==> #[trigger] tail[j] == low_first@[len - 1 - j] as nat,
            forall|j: int| 0 <= j < len ==> #[trigger] tail[j] < 10,
            k <= len,
            out@ == tail.take(k as int).map_values(|d: nat| digit_char(d)),
        decreases len - k,
    {
        let d = low_first[len - 1 - k];
        assert(tail[k as int] == d as nat);
        let c = symbols.get_char(d as usize);
        push_char(&mut out, c);
        assert(tail.take(k + 1).map_values(|d: nat| digit_char(d)) =~= tail.take(
            k as int,
        ).map_values(|d: nat| digit_char(d)).push(c));
        k += 1;
    }
    assert(tail.take(len as int) =~= tail);
    out
}

impl ParameterValue {
    /// The value as text: the string itself, a number in decimal, `true` or
    /// `false`.
    pub fn to_string(&self) -> (r: String)
        ensures
            r@ == value_text(self@),
    {
        match self {
            ParameterValue::String(s) => s.clone(),
            ParameterValue::Number(n) => decimal(*n),
            ParameterValue::Boolean(b) => {
                proof {
                    reveal_strlit("true");
                    reveal_strlit("false");
                }
                let mut out = String::new();
                if *b {
                    append_str(&mut out, "true");
                } else {
                    append_str(&mut out, "false");
                }
                assert(out@ =~= value_text(self@));
                out
            },
        }
    }

    /// The string held, if any.
    pub fn as_string(&self) -> (r: Option<&String>)
        ensures
            match self {
                ParameterValue::String(s) => r == Some(s),
                _ => r is None,
            },
    {
        match self {
            ParameterValue::String(s) => Some(s),
            _ => None,
        }
    }

    /// The number held, if any.
    pub fn as_number(&self) -> (r: Option<&u64>)
        ensures
            match self {
                ParameterValue::Number(n) => r == Some(n),
                _ => r is None,
            },
    {
        match self {
            ParameterValue::Number(n) => Some(n),
            _ => None,
        }
    }

    /// The boolean held, if any.
    pub fn as_boolean(&self) -> (r: Option<&bool>)
        ensures
            match self {
                ParameterValue::Boolean(b) => r == Some(b),
                _ => r is None,
            },
    {
        match self {
            ParameterValue::Boolean(b) => Some(b),
            _ => None,
        }
    }
}

impl Parameter {
    /// The parameter's entry in the help text: names, aliases, description
    /// and default value.
    pub fn to_string(&self) -> (r: String)
        ensures
            r@ == "\t- names: "@ + join_prefixed(texts(self.long_names@), seq!['-', '-'])
                + "\n\t  aliases: "@ + join_prefixed(texts(self.short_names@), seq!['-'])
                + "\n\t  description: "@ + self.description@ + "\n\t  default value: "@
                + value_text(self.default_value@),
    {
        let mut out = String::new();
        append_str(&mut out, "\t- names: ");
        append_text(&mut out, &self.get_long_names());
        append_str(&mut out, "\n\t  aliases: ");
        append_text(&mut out, &self.get_short_names());
        append_str(&mut out, "\n\t  description: ");
        append_text(&mut out, &self.description);
        append_str(&mut out, "\n\t  default value: ");
        append_text(&mut out, &self.default_value.to_string());
        assert(out@ =~= "\t- names: "@ + join_prefixed(texts(self.long_names@), seq!['-', '-'])
            + "\n\t  aliases: "@ + join_prefixed(texts(self.short_names@), seq!['-'])
            + "\n\t  description: "@ + self.description@ + "\n\t  default value: "@
            + value_text(self.default_value@));
        out
    }
}

/// The value views of the parameters of `ps`.
pub open spec fn value_views(ps: Seq<Parameter>) -> Seq<Option<ValueView>> {
    ps.map_values(
        |p: Parameter|
            match p.value {
                Some(v) => Some(v@),
                None => None,
            },
    )
}

/// `a` and `b` hold the same parameters but for their values.
pub open spec fn same_but_values(a: Seq<Parameter>, b: Seq<Parameter>) -> bool {
    &&& a.len() == b.len()
    &&& forall|j: int|
        0 <= j < a.len() ==> {
            &&& (#[trigger] a[j]).long_names == b[j].long_names
            &&& a[j].short_names == b[j].short_names
            &&& a[j].description == b[j].description
            &&& a[j].types == b[j].types
            &&& a[j].default_value == b[j].default_value
            &&& a[j].allowed_number_values == b[j].allowed_number_values
            &&& a[j].allowed_string_values == b[j].allowed_string_values
            &&& a[j].checks_path == b[j].checks_path
        }
}

/// The values after the argument `arg`, whose path check gave `verdict`:
/// the first parameter of `ps` that it names takes its value, when that
/// parameter accepts it.
pub open spec fn apply_one(
    ps: Seq<Parameter>,
    values: Seq<Option<ValueView>>,
    arg: Seq<char>,
    verdict: bool,
) -> Seq<Option<ValueView>> {
    match argument_parts(arg) {
        None => values,
        Some(parts) => match first_named(ps, parts.0) {
            None => values,
            Some(i) => match ps[i].accepted(parts.1, verdict) {
                Some(v) => values.update(i, Some(v)),
                None => values,
            },
        },
    }
}

/// The values after the arguments `args` in order.
pub open spec fn apply_all(
    ps: Seq<Parameter>,
    values: Seq<Option<ValueView>>,
    args: Seq<Seq<char>>,
    verdicts: Seq<bool>,
) -> Seq<Option<ValueView>>
    decreases args.len(),
{
    if args.len() == 0 {
        values
    } else {
        apply_one(
            ps,
            apply_all(ps, values, args.drop_last(), verdicts.drop_last()),
            args.last(),
            verdicts.last(),
        )
    }
}

proof fn lemma_first_named_bound(ps: Seq<Parameter>, name: Seq<char>)
    ensures
        first_named(ps, name) matches Some(i) ==> 0 <= i < ps.len(),
    decreases ps.len(),
{
    if ps.len() > 0 {
        lemma_first_named_bound(ps.drop_last(), name);
    }
}

proof fn lemma_first_named_same(a: Seq<Parameter>, b: Seq<Parameter>, name: Seq<char>)
    requires
        same_but_values(a, b),
    ensures
        first_named(a, name) == first_named(b, name),
    decreases a.len(),
{
    if a.len() > 0 {
        let (a1, b1) = (a.drop_last(), b.drop_last());
        assert forall|j: int| 0 <= j < a1.len() implies (#[trigger] a1[j]).long_names
            == b1[j].long_names && a1[j].short_names == b1[j].short_names && a1[j].description
            == b1[j].description && a1[j].types == b1[j].types && a1[j].default_value
            == b1[j].default_value && a1[j].allowed_number_values == b1[j].allowed_number_values
            && a1[j].allowed_string_values == b1[j].allowed_string_values && a1[j].checks_path
            == b1[j].checks_path by {
            assert(a1[j] == a[j] && b1[j] == b[j]);
        }
        lemma_first_named_same(a1, b1, name);
        assert(a.last() == a[a.len() - 1]);
    }
}

/// Applies the command-line arguments in order: an argument that splits into
/// a name and a value and names a parameter sets that parameter's value,
/// when the parameter accepts it; one that does not is passed over.
/// `path_verdicts[k]` is the verdict of the path check on the value of
/// `arguments[k]`.
pub fn apply_arguments(
    parameters: &mut Vec<Parameter>,
    arguments: &Vec<String>,
    path_verdicts: &Vec<bool>,
)
    requires
        path_verdicts@.len() == arguments@.len(),
    ensures
        same_but_values(final(parameters)@, old(parameters)@),
        value_views(final(parameters)@) == apply_all(
            old(parameters)@,
            value_views(old(parameters)@),
            texts(arguments@),
            path_verdicts@,
        ),
{
    let ghost ps0 = parameters@;
    let ghost args = texts(arguments@);
    let mut k: usize = 0;
    assert(args.take(0) =~= Seq::<Seq<char>>::empty());
    assert(path_verdicts@.take(0) =~= Seq::<bool>::empty());
    while k < arguments.len()
        invariant
            ps0 == old(parameters)@,
            args == texts(arguments@),
            path_verdicts@.len() == arguments@.len(),
            k <= arguments@.len(),
            same_but_values(parameters@, ps0),
            value_views(parameters@) == apply_all(
                ps0,
                value_views(ps0),
                args.take(k as int),
                path_verdicts@.take(k as int),
            ),
        decreases arguments.len() - k,
    {
        let ghost before = parameters@;
        let ghost vals = value_views(before);
        proof {
            assert(args.take(k + 1).drop_last() =~= args.take(k as int));
            assert(path_verdicts@.take(k + 1).drop_last() =~= path_verdicts@.take(k as int));
            assert(args.take(k + 1).last() == arguments@[k as int]@);
            assert(path_verdicts@.take(k + 1).last() == path_verdicts@[k as int]);
        }
        if let Some((name, value)) = split_argument(&arguments[k]) {
            proof {
                lemma_first_named_same(before, ps0, name@);
                lemma_first_named_bound(ps0, name@);
            }
            let verdict = path_verdicts[k];
            match get_named_parameter(parameters, &name) {
                Some(p) => {
                    let _ = p.set_value(&value, verdict);
                },
                None => {},
            }
            proof {
                let after = parameters@;
                match first_named(ps0, name@) {
                    Some(i) => {
                        assert(before[i].accepted(value@, verdict) == ps0[i].accepted(
                            value@,
                            verdict,
                        ));
                        assert forall|j: int| 0 <= j < after.len() && j != i implies #[trigger] after[j]
                            == before[j] by {}
                        assert(same_but_values(after, ps0));
                        assert(value_views(after) =~= apply_one(
                            ps0,
                            vals,
                            arguments@[k as int]@,
                            verdict,
                        ));
                    },
                    None => {
                        assert(value_views(after) =~= vals);
                    },
                }
            }
        }
        k += 1;
    }
    assert(args.take(arguments@.len() as int) =~= args);
    assert(path_verdicts@.take(arguments@.len() as int) =~= path_verdicts@);
}

} // verus!
