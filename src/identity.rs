use vstd::prelude::*;
use vstd::string::*;

verus! {

/// The character of a decimal digit.
pub open spec fn digit_char(d: nat) -> char {
    if d == 0 { '0' }
    else if d == 1 { '1' }
    else if d == 2 { '2' }
    else if d == 3 { '3' }
    else if d == 4 { '4' }
    else if d == 5 { '5' }
    else if d == 6 { '6' }
    else if d == 7 { '7' }
    else if d == 8 { '8' }
    else { '9' }
}

/// The decimal notation of `n`, without leading zeros.
pub open spec fn decimal(n: nat) -> Seq<char>
    decreases n,
{
    if n < 10 {
        seq![digit_char(n)]
    } else {
        decimal(n / 10).push(digit_char(n % 10))
    }
}

/// The identity of entity `index` in the group named `ns`: `ns + "_" + index`.
pub open spec fn derive_uid(ns: Seq<char>, index: nat) -> Seq<char> {
    ns + seq!['_'] + decimal(index)
}

proof fn lemma_digit_char_injective(a: nat, b: nat)
    requires
        a < 10,
        b < 10,
        digit_char(a) == digit_char(b),
    ensures
        a == b,
{
}

proof fn lemma_decimal_nonempty(n: nat)
    ensures
        decimal(n).len() >= 1,
    decreases n,
{
    if n >= 10 {
        lemma_decimal_nonempty(n / 10);
    }
}

proof fn lemma_decimal_injective(a: nat, b: nat)
    requires
        decimal(a) == decimal(b),
    ensures
        a == b,
    decreases a + b,
{
    if a < 10 && b < 10 {
        assert(decimal(a) == seq![digit_char(a)]);
        assert(decimal(b) == seq![digit_char(b)]);
        assert(seq![digit_char(a)][0] == digit_char(a));
        assert(seq![digit_char(b)][0] == digit_char(b));
        lemma_digit_char_injective(a, b);
    } else if a < 10 {
        lemma_decimal_nonempty(b / 10);
        assert(decimal(a).len() == 1);
    } else if b < 10 {
        lemma_decimal_nonempty(a / 10);
        assert(decimal(b).len() == 1);
    } else {
        let da = decimal(a);
        let db = decimal(b);
        assert(da.last() == db.last());
        lemma_digit_char_injective(a % 10, b % 10);
        assert(da.drop_last() =~= decimal(a / 10));
        assert(db.drop_last() =~= decimal(b / 10));
        lemma_decimal_injective(a / 10, b / 10);
    }
}

/// Two indices of one group never share an identity. (That one index always gets
/// the same identity holds because `derive_uid` is a function of its arguments, and
/// `get_uid` returns exactly its value.)
pub proof fn lemma_derive_deterministic_and_distinct(ns: Seq<char>, i: nat, j: nat)
    ensures
        i != j ==> derive_uid(ns, i) != derive_uid(ns, j),
{
    if i != j && derive_uid(ns, i) == derive_uid(ns, j) {
        let prefix_len = ns.len() + 1;
        assert(decimal(i) =~= derive_uid(ns, i).subrange(prefix_len as int, derive_uid(ns, i).len() as int));
        assert(decimal(j) =~= derive_uid(ns, j).subrange(prefix_len as int, derive_uid(ns, j).len() as int));
        lemma_decimal_injective(i, j);
    }
}

fn digit_str(d: usize) -> (r: &'static str)
    requires
        d < 10,
    ensures
        r@ == seq![digit_char(d as nat)],
{
    proof {
        reveal_strlit("0");
        reveal_strlit("1");
        reveal_strlit("2");
        reveal_strlit("3");
        reveal_strlit("4");
        reveal_strlit("5");
        reveal_strlit("6");
        reveal_strlit("7");
        reveal_strlit("8");
        reveal_strlit("9");
    }
    if d == 0 { "0" }
    else if d == 1 { "1" }
    else if d == 2 { "2" }
    else if d == 3 { "3" }
    else if d == 4 { "4" }
    else if d == 5 { "5" }
    else if d == 6 { "6" }
    else if d == 7 { "7" }
    else if d == 8 { "8" }
    else {
        assert(seq!['9'] =~= "9"@);
        "9"
    }
}

/// Appends the decimal notation of `n` to `s`.
pub fn push_decimal(s: &mut String, n: u64)
    ensures
        final(s)@ == old(s)@ + decimal(n as nat),
    decreases n,
{
    if n >= 10 {
        push_decimal(s, n / 10);
    }
    let d = digit_str((n % 10) as usize);
    s.append(d);
    assert(decimal(n as nat) =~= if n < 10 { seq![digit_char(n as nat)] } else { decimal((n / 10) as nat).push(digit_char((n % 10) as nat)) });
}

/// The namespace of a clock reading: `"obj" + secs + "x" + nanos`.
pub open spec fn clock_namespace(secs: nat, nanos: nat) -> Seq<char> {
    seq!['o', 'b', 'j'] + decimal(secs) + seq!['x'] + decimal(nanos)
}

/// The namespace under which one spawn request's entities get their identities.
pub struct MultiEntityUID {
    base: String,
}

/// Relies on std::time::SystemTime::elapsed, taken from UNIX_EPOCH: the time now as
/// whole seconds and the nanoseconds below them (Duration::subsec_nanos is below one
/// billion); `None` where the clock reads before 1970.
#[verifier::external_body]
fn time_since_epoch() -> (r: Option<(u64, u32)>)
    ensures
        r matches Some(t) ==> t.1 < 1_000_000_000,
{
    std::time::UNIX_EPOCH.elapsed().ok().map(|d| (d.as_secs(), d.subsec_nanos()))
}

impl MultiEntityUID {
    pub closed spec fn namespace(&self) -> Seq<char> {
        self.base@
    }

    /// The namespace for a clock reading of `secs` seconds and `nanos` nanoseconds
    /// since 1970.
    pub fn namespace_from_clock(secs: u64, nanos: u32) -> (r: Self)
        ensures
            r.namespace() == clock_namespace(secs as nat, nanos as nat),
    {
        let mut base = String::from_str("obj");
        proof {
            reveal_strlit("obj");
            reveal_strlit("x");
        }
        push_decimal(&mut base, secs);
        base.append("x");
        push_decimal(&mut base, nanos as u64);
        MultiEntityUID { base }
    }

    /// A fresh namespace derived from the current time.
    pub fn new() -> (r: Self)
        ensures
            exists|s: nat, n: nat| n < 1_000_000_000 && r.namespace() == clock_namespace(s, n),
    {
        let (secs, nanos) = match time_since_epoch() {
            Some(t) => t,
            // A clock set before 1970 reads as the epoch itself.
            None => (0, 0),
        };
        let r = Self::namespace_from_clock(secs, nanos);
        assert(nanos < 1_000_000_000 && r.namespace() == clock_namespace(secs as nat, nanos as nat));
        r
    }

    /// A namespace chosen by the caller.
    pub fn from_namespace(ns: String) -> (r: Self)
        ensures
            r.namespace() == ns@,
    {
        MultiEntityUID { base: ns }
    }

    pub fn as_str(&self) -> (r: &str)
        ensures
            r@ == self.namespace(),
    {
        self.base.as_str()
    }

    /// The identity of entity `index` of the group.
    pub fn get_uid(&self, index: usize) -> (r: String)
        ensures
            r@ == derive_uid(self.namespace(), index as nat),
    {
        let mut r = String::from_str(self.base.as_str());
        r.append("_");
        push_decimal(&mut r, index as u64);
        proof {
            reveal_strlit("_");
        }
        r
    }

    pub fn clone_uid(&self) -> (r: Self)
        ensures
            r.namespace() == self.namespace(),
    {
        MultiEntityUID { base: self.base.clone() }
    }
}

} // verus!
