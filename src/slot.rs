//! Which game and which save slot a save file belongs to, from its path.
use vstd::prelude::*;

verus! {

/// The game whose saves are read.
#[derive(Debug, Clone, Copy, PartialEq, Eq, Structural)]
pub enum Game {
    HollowKnight,
    Silksong,
}

/// Whether `pat` occurs in `s`.
pub open spec fn contains(s: Seq<u8>, pat: Seq<u8>) -> bool {
    exists|i: int| 0 <= i && i + pat.len() <= s.len() && #[trigger] s.subrange(i, i + pat.len()) == pat
}

pub open spec fn silksong_upper() -> Seq<u8> {
    seq![83u8, 105, 108, 107, 115, 111, 110, 103]
}

pub open spec fn silksong_lower() -> Seq<u8> {
    seq![115u8, 105, 108, 107, 115, 111, 110, 103]
}

/// A path component that names the second game: it holds `Silksong` or `silksong`.
pub open spec fn names_silksong(name: Seq<u8>) -> bool {
    contains(name, silksong_upper()) || contains(name, silksong_lower())
}

fn contains_bytes(s: &[u8], pat: &[u8]) -> (r: bool)
    ensures
        r == contains(s@, pat@),
{
    let slen: usize = s.len();
    let mut i: usize = 0;
    while i <= slen && pat.len() <= slen - i
        invariant
            slen == s@.len(),
            forall|k: int| 0 <= k < i ==> #[trigger] s@.subrange(k, k + pat@.len()) != pat@,
        decreases s@.len() - i,
    {
        let mut j: usize = 0;
        let mut same: bool = true;
        while same && j < pat.len()
            invariant
                slen == s@.len(),
                i + pat@.len() <= s@.len(),
                j <= pat@.len(),
                forall|m: int| 0 <= m < j ==> s@[i + m] == pat@[m],
                !same ==> j < pat@.len() && s@[i + j] != pat@[j as int],
            decreases pat@.len() - j + (if same { 1int } else { 0int }),
        {
            if s[i + j] != pat[j] {
                same = false;
            } else {
                j = j + 1;
            }
        }
        if same {
            assert(s@.subrange(i as int, i + pat@.len()) =~= pat@);
            return true;
        }
        assert(s@.subrange(i as int, i + pat@.len())[j as int] != pat@[j as int]);
        i = i + 1;
    }
    proof {
        assert forall|k: int| 0 <= k && k + pat@.len() <= s@.len() implies #[trigger] s@.subrange(
            k,
            k + pat@.len(),
        ) != pat@ by {
            assert(k < i);
        }
    }
    false
}

/// The game of a save file whose path has the components `names`: the
/// second game when a component names it, the first otherwise.
pub fn game_from_names(names: &Vec<Vec<u8>>) -> (r: Game)
    ensures
        r == Game::Silksong <==> exists|i: int| 0 <= i < names@.len() && #[trigger] names_silksong(names@[i]@),
{
    let upper: [u8; 8] = [83, 105, 108, 107, 115, 111, 110, 103];
    let lower: [u8; 8] = [115, 105, 108, 107, 115, 111, 110, 103];
    assert(upper@ =~= silksong_upper());
    assert(lower@ =~= silksong_lower());
    let mut i: usize = 0;
    while i < names.len()
        invariant
            i <= names@.len(),
            upper@ == silksong_upper(),
            lower@ == silksong_lower(),
            forall|k: int| 0 <= k < i ==> !#[trigger] names_silksong(names@[k]@),
        decreases names@.len() - i,
    {
        let name = names[i].as_slice();
        if contains_bytes(name, &upper) || contains_bytes(name, &lower) {
            assert(names_silksong(names@[i as int]@));
            return Game::Silksong;
        }
        i = i + 1;
    }
    Game::HollowKnight
}

impl Game {
    /// The name used for the mirror, log and encoded files.
    pub open spec fn name_spec(self) -> Seq<char> {
        match self {
            Game::HollowKnight => seq!['h', 'o', 'l', 'l', 'o', 'w', '-', 'k', 'n', 'i', 'g', 'h', 't'],
            Game::Silksong => seq!['s', 'i', 'l', 'k', 's', 'o', 'n', 'g'],
        }
    }

    pub fn name(&self) -> (r: &'static str)
        ensures
            r@ == self.name_spec(),
    {
        proof {
            reveal_strlit("hollow-knight");
            reveal_strlit("silksong");
        }
        match self {
            Game::HollowKnight => "hollow-knight",
            Game::Silksong => "silksong",
        }
    }
}

/// The value of a string of decimal digits.
pub open spec fn digits_value(d: Seq<u8>) -> nat
    decreases d.len(),
{
    if d.len() == 0 {
        0
    } else {
        digits_value(d.drop_last()) * 10 + (d.last() - 48) as nat
    }
}

pub open spec fn all_digits(d: Seq<u8>) -> bool {
    forall|i: int| 0 <= i < d.len() ==> 48 <= #[trigger] d[i] <= 57
}

/// The text between `user` and `.dat`, when the name has that shape.
pub open spec fn slot_text(name: Seq<u8>) -> Option<Seq<u8>> {
    if name.len() >= 8 && name.subrange(0, 4) == seq![117u8, 115, 101, 114] && name.subrange(
        name.len() - 4,
        name.len() as int,
    ) == seq![46u8, 100, 97, 116] {
        Some(name.subrange(4, name.len() - 4))
    } else {
        None
    }
}

/// An unsigned byte in decimal, with an optional leading `+`.
pub open spec fn byte_of(t: Seq<u8>) -> Option<u8> {
    let d = if t.len() > 0 && t[0] == 43 { t.drop_first() } else { t };
    if d.len() > 0 && all_digits(d) && digits_value(d) <= 255 {
        Some(digits_value(d) as u8)
    } else {
        None
    }
}

/// The slot number in a file name such as `user3.dat`.
pub open spec fn slot_spec(name: Seq<u8>) -> Option<u8> {
    match slot_text(name) {
        Some(t) => byte_of(t),
        None => None,
    }
}

proof fn lemma_digits_push(d: Seq<u8>, c: u8)
    ensures
        digits_value(d.push(c)) == digits_value(d) * 10 + (c - 48) as nat,
{
    assert(d.push(c).drop_last() =~= d);
}

/// The slot number in the file name `name`, as `user3.dat` gives 3.
pub fn slot_from_file_name(name: &[u8]) -> (r: Option<u8>)
    ensures
        r == slot_spec(name@),
{
    let n = name.len();
    if n < 8 || name[0] != 117 || name[1] != 115 || name[2] != 101 || name[3] != 114
        || name[n - 4] != 46 || name[n - 3] != 100 || name[n - 2] != 97 || name[n - 1] != 116 {
        proof {
            if n >= 8 {
                let p = name@.subrange(0, 4);
                let q = name@.subrange(n - 4, n as int);
                assert(p[0] == name@[0] && p[1] == name@[1] && p[2] == name@[2] && p[3] == name@[3]);
                assert(q[0] == name@[n - 4] && q[1] == name@[n - 3] && q[2] == name@[n - 2] && q[3]
                    == name@[n - 1]);
            }
        }
        return None;
    }
    assert(name@.subrange(0, 4) =~= seq![117u8, 115, 101, 114]);
    assert(name@.subrange(n - 4, n as int) =~= seq![46u8, 100, 97, 116]);
    let ghost t = name@.subrange(4, n - 4);
    let mut start: usize = 4;
    if n - 4 > 4 && name[4] == 43 {
        start = 5;
    }
    let ghost d = if t.len() > 0 && t[0] == 43 { t.drop_first() } else { t };
    assert(d =~= name@.subrange(start as int, n - 4));
    if start >= n - 4 {
        return None;
    }
    assert(slot_text(name@) == Some(t));
    let mut acc: u32 = 0;
    let mut i: usize = start;
    while i < n - 4
        invariant
            slot_text(name@) == Some(t),
            d == (if t.len() > 0 && t[0] == 43 { t.drop_first() } else { t }),
            start <= i <= n - 4,
            n == name@.len(),
            d == name@.subrange(start as int, n - 4),
            all_digits(name@.subrange(start as int, i as int)),
            acc == if digits_value(name@.subrange(start as int, i as int)) > 255 {
                256
            } else {
                digits_value(name@.subrange(start as int, i as int))
            },
        decreases n - 4 - i,
    {
        let c = name[i];
        if c < 48 || c > 57 {
            assert(d[i - start] == c);
            assert(!all_digits(d));
            return None;
        }
        proof {
            let p = name@.subrange(start as int, i as int);
            assert(name@.subrange(start as int, i + 1) =~= p.push(c));
            lemma_digits_push(p, c);
        }
        let v: u32 = acc * 10 + (c - 48) as u32;
        acc = if v > 255 { 256 } else { v };
        i = i + 1;
    }
    if acc > 255 {
        None
    } else {
        Some(acc as u8)
    }
}

} // verus!
