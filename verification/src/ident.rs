//! Identifiers: the names of variables and of block labels, their order, and
//! the names that lowering makes up.

use vstd::prelude::*;
use vstd::string::*;

verus! {

/// A name. Two identifiers are the same when their names are the same.
#[derive(Debug, PartialEq, Eq)]
pub struct Id {
    name: String,
}

impl View for Id {
    type V = Seq<char>;

    closed spec fn view(&self) -> Seq<char> {
        self.name@
    }
}

impl Clone for Id {
    fn clone(&self) -> (r: Self)
        ensures
            r@ == self@,
    {
        Id { name: self.name.clone() }
    }
}

/// The order of names: by the first character in which they differ, a proper
/// prefix before the longer name.
pub open spec fn name_lt(a: Seq<char>, b: Seq<char>) -> bool
    decreases a.len(),
{
    if b.len() == 0 {
        false
    } else if a.len() == 0 {
        true
    } else if a[0] != b[0] {
        (a[0] as int) < (b[0] as int)
    } else {
        name_lt(a.drop_first(), b.drop_first())
    }
}

/// No name comes before itself.
pub proof fn lemma_name_lt_irreflexive(a: Seq<char>)
    ensures
        !name_lt(a, a),
    decreases a.len(),
{
    if a.len() > 0 {
        lemma_name_lt_irreflexive(a.drop_first());
    }
}

/// Of two different names exactly one comes before the other.
pub proof fn lemma_name_lt_total(a: Seq<char>, b: Seq<char>)
    ensures
        a != b ==> (name_lt(a, b) || name_lt(b, a)),
        !(name_lt(a, b) && name_lt(b, a)),
    decreases a.len(),
{
    if a.len() == 0 || b.len() == 0 {
        if a.len() == 0 && b.len() == 0 {
            assert(a =~= b);
        }
    } else if a[0] == b[0] {
        lemma_name_lt_total(a.drop_first(), b.drop_first());
        if a.drop_first() == b.drop_first() {
            assert(a =~= seq![a[0]] + a.drop_first());
            assert(b =~= seq![b[0]] + b.drop_first());
        }
    } else {
        assert(a[0] as int != b[0] as int);
    }
}

/// The order of names is transitive.
pub proof fn lemma_name_lt_transitive(a: Seq<char>, b: Seq<char>, c: Seq<char>)
    requires
        name_lt(a, b),
        name_lt(b, c),
    ensures
        name_lt(a, c),
    decreases a.len(),
{
    if a.len() > 0 && a[0] == b[0] && b[0] == c[0] {
        lemma_name_lt_transitive(a.drop_first(), b.drop_first(), c.drop_first());
    }
}

/// The character of a decimal digit.
pub open spec fn digit_char(d: nat) -> char {
    if d == 0 {
        '0'
    } else if d == 1 {
        '1'
    } else if d == 2 {
        '2'
    } else if d == 3 {
        '3'
    } else if d == 4 {
        '4'
    } else if d == 5 {
        '5'
    } else if d == 6 {
        '6'
    } else if d == 7 {
        '7'
    } else if d == 8 {
        '8'
    } else {
        '9'
    }
}

/// A natural number in decimal, without leading zeros.
pub open spec fn decimal(n: nat) -> Seq<char>
    decreases n,
{
    if n < 10 {
        seq![digit_char(n)]
    } else {
        decimal(n / 10).push(digit_char(n % 10))
    }
}

/// Different numbers are written differently.
pub proof fn lemma_decimal_injective(a: nat, b: nat)
    requires
        decimal(a) == decimal(b),
    ensures
        a == b,
    decreases a,
{
    lemma_decimal_nonempty(a / 10);
    lemma_decimal_nonempty(b / 10);
    if a < 10 && b < 10 {
        assert(decimal(a)[0] == digit_char(a));
        assert(decimal(b)[0] == digit_char(b));
    } else if a < 10 {
        assert(decimal(a).len() == 1);
        assert(decimal(b).len() >= 2);
    } else if b < 10 {
        assert(decimal(b).len() == 1);
        assert(decimal(a).len() >= 2);
    } else {
        let da = decimal(a / 10);
        let db = decimal(b / 10);
        assert(decimal(a).last() == digit_char(a % 10));
        assert(decimal(b).last() == digit_char(b % 10));
        assert(a % 10 == b % 10);
        assert(da =~= decimal(a).drop_last());
        assert(db =~= decimal(b).drop_last());
        lemma_decimal_injective(a / 10, b / 10);
        assert(a == 10 * (a / 10) + a % 10);
        assert(b == 10 * (b / 10) + b % 10);
    }
}

/// Every number has at least one digit.
pub proof fn lemma_decimal_nonempty(n: nat)
    ensures
        decimal(n).len() >= 1,
    decreases n,
{
    if n >= 10 {
        lemma_decimal_nonempty(n / 10);
    }
}

/// The name of the temporary with the given prefix and number.
pub open spec fn temp_name(prefix: Seq<char>, n: nat) -> Seq<char> {
    prefix + seq!['_'] + decimal(n)
}

/// The name of the generated block label with the given number.
pub open spec fn label_name(n: nat) -> Seq<char> {
    seq!['l', 'b', 'l'] + decimal(n)
}

/// The label of the block in which every program starts.
pub open spec fn entry_name() -> Seq<char> {
    seq!['e', 'n', 't', 'r', 'y']
}

/// Temporaries with one prefix and different numbers have different names.
pub proof fn lemma_temp_name_injective(prefix: Seq<char>, a: nat, b: nat)
    requires
        temp_name(prefix, a) == temp_name(prefix, b),
    ensures
        a == b,
{
    let k = prefix.len() + 1;
    assert(temp_name(prefix, a).skip(k as int) =~= decimal(a));
    assert(temp_name(prefix, b).skip(k as int) =~= decimal(b));
    lemma_decimal_injective(a, b);
}

/// Generated labels with different numbers have different names, and none is
/// the entry label.
pub proof fn lemma_label_name_injective(a: nat, b: nat)
    ensures
        label_name(a) == label_name(b) ==> a == b,
        label_name(a) != entry_name(),
{
    if label_name(a) == label_name(b) {
        assert(label_name(a).skip(3) =~= decimal(a));
        assert(label_name(b).skip(3) =~= decimal(b));
        lemma_decimal_injective(a, b);
    }
    assert(label_name(a)[0] == 'l');
}

fn digit_text(d: u128) -> (r: &'static str)
    requires
        d < 10,
    ensures
        r@ == seq![digit_char(d as nat)],
{
    proof {
        reveal_strlit("0");
        reveal_strlit("1");
        reveal_strlit("2");
        reveal_strlit("3");
        reveal_strlit("4");
        reveal_strlit("5");
        reveal_strlit("6");
        reveal_strlit("7");
        reveal_strlit("8");
        reveal_strlit("9");
    }
    let r = if d == 0 {
        "0"
    } else if d == 1 {
        "1"
    } else if d == 2 {
        "2"
    } else if d == 3 {
        "3"
    } else if d == 4 {
        "4"
    } else if d == 5 {
        "5"
    } else if d == 6 {
        "6"
    } else if d == 7 {
        "7"
    } else if d == 8 {
        "8"
    } else {
        "9"
    };
    assert(r@ =~= seq![digit_char(d as nat)]);
    r
}

/// Writes a number in decimal.
pub fn decimal_text(n: u128) -> (r: String)
    ensures
        r@ == decimal(n as nat),
    decreases n,
{
    if n < 10 {
        String::from_str(digit_text(n))
    } else {
        let mut s = decimal_text(n / 10);
        s.append(digit_text(n % 10));
        assert(s@ =~= decimal(n as nat));
        s
    }
}

impl Id {
    /// The identifier with the given name.
    pub fn new(name: &str) -> (r: Id)
        ensures
            r@ == name@,
    {
        Id { name: String::from_str(name) }
    }

    /// The name.
    pub fn as_str(&self) -> (r: &str)
        ensures
            r@ == self@,
    {
        self.name.as_str()
    }

    /// Whether two identifiers have the same name.
    pub fn same(&self, other: &Id) -> (r: bool)
        ensures
            r == (self@ == other@),
    {
        self.name == other.name
    }

    /// Whether this identifier comes before the other in the order of names.
    pub fn precedes(&self, other: &Id) -> (r: bool)
        ensures
            r == name_lt(self@, other@),
    {
        let a = self.name.as_str();
        let b = other.name.as_str();
        let la = a.unicode_len();
        let lb = b.unicode_len();
        let mut i: usize = 0;
        proof {
            assert(a@.skip(0) =~= a@);
            assert(b@.skip(0) =~= b@);
        }
        while i < la && i < lb
            invariant
                a@ == self@,
                b@ == other@,
                la == a@.len(),
                lb == b@.len(),
                i <= la,
                i <= lb,
                name_lt(a@, b@) == name_lt(a@.skip(i as int), b@.skip(i as int)),
            decreases la - i,
        {
            let x = a.get_char(i);
            let y = b.get_char(i);
            proof {
                assert(a@.skip(i as int).drop_first() =~= a@.skip(i + 1));
                assert(b@.skip(i as int).drop_first() =~= b@.skip(i + 1));
                assert(a@.skip(i as int)[0] == x);
                assert(b@.skip(i as int)[0] == y);
            }
            if x != y {
                return (x as u32) < (y as u32);
            }
            i += 1;
        }
        i < lb
    }

    /// The temporary with the given prefix and number.
    pub fn temp(prefix: &str, n: u128) -> (r: Id)
        ensures
            r@ == temp_name(prefix@, n as nat),
    {
        let mut s = String::from_str(prefix);
        s.append("_");
        s.append(decimal_text(n).as_str());
        proof {
            reveal_strlit("_");
            assert("_"@ =~= seq!['_']);
        }
        Id { name: s }
    }

    /// The generated block label with the given number.
    pub fn label(n: u128) -> (r: Id)
        ensures
            r@ == label_name(n as nat),
    {
        let mut s = String::from_str("lbl");
        s.append(decimal_text(n).as_str());
        proof {
            reveal_strlit("lbl");
            assert("lbl"@ =~= seq!['l', 'b', 'l']);
        }
        Id { name: s }
    }

    /// The entry label.
    pub fn entry() -> (r: Id)
        ensures
            r@ == entry_name(),
    {
        proof {
            reveal_strlit("entry");
            assert("entry"@ =~= entry_name());
        }
        Id { name: String::from_str("entry") }
    }
}

} // verus!
