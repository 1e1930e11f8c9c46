//! Atoms and element-code conventions.

use vstd::prelude::*;
use crate::geom::Vec3;

verus! {

/// Element codes below this bound are ordinary, visible elements; adding
/// the bound to a code marks the atom as hidden, reversibly.
pub const HIDDEN_ELEMENT_OFFSET: usize = 128;

/// A single atom: a numeric element code, a position held as three
/// double-precision bit patterns, and a formal charge held as one.
#[derive(Debug, Clone, Copy, PartialEq, Eq, Structural)]
pub struct Atom3D {
    pub element: usize,
    pub position: Vec3,
    pub formal_charge: u64,
}

impl Atom3D {
    /// The inert placeholder atom: element code 0, which no continuous
    /// indexing counts, at the origin with no charge.
    pub open spec fn placeholder() -> Atom3D {
        Atom3D {
            element: 0,
            position: Vec3 { x: 0, y: 0, z: 0 },
            formal_charge: 0,
        }
    }

    /// Exec constructor for the placeholder atom.
    pub fn new_placeholder() -> (r: Atom3D)
        ensures
            r == Atom3D::placeholder(),
    {
        Atom3D {
            element: 0,
            position: Vec3 { x: 0, y: 0, z: 0 },
            formal_charge: 0,
        }
    }
}

impl Default for Atom3D {
    /// The default atom is the placeholder.
    fn default() -> (r: Self)
        ensures
            r == Atom3D::placeholder(),
    {
        Atom3D::new_placeholder()
    }
}

/// An element code is valid - counted by continuous indexing and exported
/// to dense formats - when it is neither the placeholder code 0 nor in
/// the hidden band at or above `HIDDEN_ELEMENT_OFFSET`.
pub open spec fn spec_validated_element_num(element: usize) -> bool {
    0 < element < HIDDEN_ELEMENT_OFFSET
}

/// Exec test for element-code validity.
pub fn validated_element_num(element: usize) -> (r: bool)
    ensures
        r == spec_validated_element_num(element),
{
    0 < element && element < HIDDEN_ELEMENT_OFFSET
}

/// The symbol of element `code` in the standard periodic table, for
/// codes 1 through 118; `None` outside that range.
pub open spec fn spec_element_symbol(code: usize) -> Option<Seq<char>> {
    if code == 1 {
        Some("H"@)
    } else if code == 2 {
        Some("He"@)
    } else if code == 3 {
        Some("Li"@)
    } else if code == 4 {
        Some("Be"@)
    } else if code == 5 {
        Some("B"@)
    } else if code == 6 {
        Some("C"@)
    } else if code == 7 {
        Some("N"@)
    } else if code == 8 {
        Some("O"@)
    } else if code == 9 {
        Some("F"@)
    } else if code == 10 {
        Some("Ne"@)
    } else if code == 11 {
        Some("Na"@)
    } else if code == 12 {
        Some("Mg"@)
    } else if code == 13 {
        Some("Al"@)
    } else if code == 14 {
        Some("Si"@)
    } else if code == 15 {
        Some("P"@)
    } else if code == 16 {
        Some("S"@)
    } else if code == 17 {
        Some("Cl"@)
    } else if code == 18 {
        Some("Ar"@)
    } else if code == 19 {
        Some("K"@)
    } else if code == 20 {
        Some("Ca"@)
    } else if code == 21 {
        Some("Sc"@)
    } else if code == 22 {
        Some("Ti"@)
    } else if code == 23 {
        Some("V"@)
    } else if code == 24 {
        Some("Cr"@)
    } else if code == 25 {
        Some("Mn"@)
    } else if code == 26 {
        Some("Fe"@)
    } else if code == 27 {
        Some("Co"@)
    } else if code == 28 {
        Some("Ni"@)
    } else if code == 29 {
        Some("Cu"@)
    } else if code == 30 {
        Some("Zn"@)
    } else if code == 31 {
        Some("Ga"@)
    } else if code == 32 {
        Some("Ge"@)
    } else if code == 33 {
        Some("As"@)
    } else if code == 34 {
        Some("Se"@)
    } else if code == 35 {
        Some("Br"@)
    } else if code == 36 {
        Some("Kr"@)
    } else if code == 37 {
        Some("Rb"@)
    } else if code == 38 {
        Some("Sr"@)
    } else if code == 39 {
        Some("Y"@)
    } else if code == 40 {
        Some("Zr"@)
    } else if code == 41 {
        Some("Nb"@)
    } else if code == 42 {
        Some("Mo"@)
    } else if code == 43 {
        Some("Tc"@)
    } else if code == 44 {
        Some("Ru"@)
    } else if code == 45 {
        Some("Rh"@)
    } else if code == 46 {
        Some("Pd"@)
    } else if code == 47 {
        Some("Ag"@)
    } else if code == 48 {
        Some("Cd"@)
    } else if code == 49 {
        Some("In"@)
    } else if code == 50 {
        Some("Sn"@)
    } else if code == 51 {
        Some("Sb"@)
    } else if code == 52 {
        Some("Te"@)
    } else if code == 53 {
        Some("I"@)
    } else if code == 54 {
        Some("Xe"@)
    } else if code == 55 {
        Some("Cs"@)
    } else if code == 56 {
        Some("Ba"@)
    } else if code == 57 {
        Some("La"@)
    } else if code == 58 {
        Some("Ce"@)
    } else if code == 59 {
        Some("Pr"@)
    } else if code == 60 {
        Some("Nd"@)
    } else if code == 61 {
        Some("Pm"@)
    } else if code == 62 {
        Some("Sm"@)
    } else if code == 63 {
        Some("Eu"@)
    } else if code == 64 {
        Some("Gd"@)
    } else if code == 65 {
        Some("Tb"@)
    } else if code == 66 {
        Some("Dy"@)
    } else if code == 67 {
        Some("Ho"@)
    } else if code == 68 {
        Some("Er"@)
    } else if code == 69 {
        Some("Tm"@)
    } else if code == 70 {
        Some("Yb"@)
    } else if code == 71 {
        Some("Lu"@)
    } else if code == 72 {
        Some("Hf"@)
    } else if code == 73 {
        Some("Ta"@)
    } else if code == 74 {
        Some("W"@)
    } else if code == 75 {
        Some("Re"@)
    } else if code == 76 {
        Some("Os"@)
    } else if code == 77 {
        Some("Ir"@)
    } else if code == 78 {
        Some("Pt"@)
    } else if code == 79 {
        Some("Au"@)
    } else if code == 80 {
        Some("Hg"@)
    } else if code == 81 {
        Some("Tl"@)
    } else if code == 82 {
        Some("Pb"@)
    } else if code == 83 {
        Some("Bi"@)
    } else if code == 84 {
        Some("Po"@)
    } else if code == 85 {
        Some("At"@)
    } else if code == 86 {
        Some("Rn"@)
    } else if code == 87 {
        Some("Fr"@)
    } else if code == 88 {
        Some("Ra"@)
    } else if code == 89 {
        Some("Ac"@)
    } else if code == 90 {
        Some("Th"@)
    } else if code == 91 {
        Some("Pa"@)
    } else if code == 92 {
        Some("U"@)
    } else if code == 93 {
        Some("Np"@)
    } else if code == 94 {
        Some("Pu"@)
    } else if code == 95 {
        Some("Am"@)
    } else if code == 96 {
        Some("Cm"@)
    } else if code == 97 {
        Some("Bk"@)
    } else if code == 98 {
        Some("Cf"@)
    } else if code == 99 {
        Some("Es"@)
    } else if code == 100 {
        Some("Fm"@)
    } else if code == 101 {
        Some("Md"@)
    } else if code == 102 {
        Some("No"@)
    } else if code == 103 {
        Some("Lr"@)
    } else if code == 104 {
        Some("Rf"@)
    } else if code == 105 {
        Some("Db"@)
    } else if code == 106 {
        Some("Sg"@)
    } else if code == 107 {
        Some("Bh"@)
    } else if code == 108 {
        Some("Hs"@)
    } else if code == 109 {
        Some("Mt"@)
    } else if code == 110 {
        Some("Ds"@)
    } else if code == 111 {
        Some("Rg"@)
    } else if code == 112 {
        Some("Cn"@)
    } else if code == 113 {
        Some("Nh"@)
    } else if code == 114 {
        Some("Fl"@)
    } else if code == 115 {
        Some("Mc"@)
    } else if code == 116 {
        Some("Lv"@)
    } else if code == 117 {
        Some("Ts"@)
    } else if code == 118 {
        Some("Og"@)
    } else {
        None
    }
}

/// Exec lookup of the element symbol for a numeric code.
#[verifier::rlimit(30)]
pub fn element_num_to_symbol(code: usize) -> (r: Option<String>)
    ensures
        match r {
            Some(s) => spec_element_symbol(code) == Some(s@),
            None => spec_element_symbol(code) is None,
        },
{
    if code == 1 {
        Some(String::from_str("H"))
    } else if code == 2 {
        Some(String::from_str("He"))
    } else if code == 3 {
        Some(String::from_str("Li"))
    } else if code == 4 {
        Some(String::from_str("Be"))
    } else if code == 5 {
        Some(String::from_str("B"))
    } else if code == 6 {
        Some(String::from_str("C"))
    } else if code == 7 {
        Some(String::from_str("N"))
    } else if code == 8 {
        Some(String::from_str("O"))
    } else if code == 9 {
        Some(String::from_str("F"))
    } else if code == 10 {
        Some(String::from_str("Ne"))
    } else if code == 11 {
        Some(String::from_str("Na"))
    } else if code == 12 {
        Some(String::from_str("Mg"))
    } else if code == 13 {
        Some(String::from_str("Al"))
    } else if code == 14 {
        Some(String::from_str("Si"))
    } else if code == 15 {
        Some(String::from_str("P"))
    } else if code == 16 {
        Some(String::from_str("S"))
    } else if code == 17 {
        Some(String::from_str("Cl"))
    } else if code == 18 {
        Some(String::from_str("Ar"))
    } else if code == 19 {
        Some(String::from_str("K"))
    } else if code == 20 {
        Some(String::from_str("Ca"))
    } else if code == 21 {
        Some(String::from_str("Sc"))
    } else if code == 22 {
        Some(String::from_str("Ti"))
    } else if code == 23 {
        Some(String::from_str("V"))
    } else if code == 24 {
        Some(String::from_str("Cr"))
    } else if code == 25 {
        Some(String::from_str("Mn"))
    } else if code == 26 {
        Some(String::from_str("Fe"))
    } else if code == 27 {
        Some(String::from_str("Co"))
    } else if code == 28 {
        Some(String::from_str("Ni"))
    } else if code == 29 {
        Some(String::from_str("Cu"))
    } else if code == 30 {
        Some(String::from_str("Zn"))
    } else if code == 31 {
        Some(String::from_str("Ga"))
    } else if code == 32 {
        Some(String::from_str("Ge"))
    } else if code == 33 {
        Some(String::from_str("As"))
    } else if code == 34 {
        Some(String::from_str("Se"))
    } else if code == 35 {
        Some(String::from_str("Br"))
    } else if code == 36 {
        Some(String::from_str("Kr"))
    } else if code == 37 {
        Some(String::from_str("Rb"))
    } else if code == 38 {
        Some(String::from_str("Sr"))
    } else if code == 39 {
        Some(String::from_str("Y"))
    } else if code == 40 {
        Some(String::from_str("Zr"))
    } else if code == 41 {
        Some(String::from_str("Nb"))
    } else if code == 42 {
        Some(String::from_str("Mo"))
    } else if code == 43 {
        Some(String::from_str("Tc"))
    } else if code == 44 {
        Some(String::from_str("Ru"))
    } else if code == 45 {
        Some(String::from_str("Rh"))
    } else if code == 46 {
        Some(String::from_str("Pd"))
    } else if code == 47 {
        Some(String::from_str("Ag"))
    } else if code == 48 {
        Some(String::from_str("Cd"))
    } else if code == 49 {
        Some(String::from_str("In"))
    } else if code == 50 {
        Some(String::from_str("Sn"))
    } else if code == 51 {
        Some(String::from_str("Sb"))
    } else if code == 52 {
        Some(String::from_str("Te"))
    } else if code == 53 {
        Some(String::from_str("I"))
    } else if code == 54 {
        Some(String::from_str("Xe"))
    } else if code == 55 {
        Some(String::from_str("Cs"))
    } else if code == 56 {
        Some(String::from_str("Ba"))
    } else if code == 57 {
        Some(String::from_str("La"))
    } else if code == 58 {
        Some(String::from_str("Ce"))
    } else if code == 59 {
        Some(String::from_str("Pr"))
    } else if code == 60 {
        Some(String::from_str("Nd"))
    } else if code == 61 {
        Some(String::from_str("Pm"))
    } else if code == 62 {
        Some(String::from_str("Sm"))
    } else if code == 63 {
        Some(String::from_str("Eu"))
    } else if code == 64 {
        Some(String::from_str("Gd"))
    } else if code == 65 {
        Some(String::from_str("Tb"))
    } else if code == 66 {
        Some(String::from_str("Dy"))
    } else if code == 67 {
        Some(String::from_str("Ho"))
    } else if code == 68 {
        Some(String::from_str("Er"))
    } else if code == 69 {
        Some(String::from_str("Tm"))
    } else if code == 70 {
        Some(String::from_str("Yb"))
    } else if code == 71 {
        Some(String::from_str("Lu"))
    } else if code == 72 {
        Some(String::from_str("Hf"))
    } else if code == 73 {
        Some(String::from_str("Ta"))
    } else if code == 74 {
        Some(String::from_str("W"))
    } else if code == 75 {
        Some(String::from_str("Re"))
    } else if code == 76 {
        Some(String::from_str("Os"))
    } else if code == 77 {
        Some(String::from_str("Ir"))
    } else if code == 78 {
        Some(String::from_str("Pt"))
    } else if code == 79 {
        Some(String::from_str("Au"))
    } else if code == 80 {
        Some(String::from_str("Hg"))
    } else if code == 81 {
        Some(String::from_str("Tl"))
    } else if code == 82 {
        Some(String::from_str("Pb"))
    } else if code == 83 {
        Some(String::from_str("Bi"))
    } else if code == 84 {
        Some(String::from_str("Po"))
    } else if code == 85 {
        Some(String::from_str("At"))
    } else if code == 86 {
        Some(String::from_str("Rn"))
    } else if code == 87 {
        Some(String::from_str("Fr"))
    } else if code == 88 {
        Some(String::from_str("Ra"))
    } else if code == 89 {
        Some(String::from_str("Ac"))
    } else if code == 90 {
        Some(String::from_str("Th"))
    } else if code == 91 {
        Some(String::from_str("Pa"))
    } else if code == 92 {
        Some(String::from_str("U"))
    } else if code == 93 {
        Some(String::from_str("Np"))
    } else if code == 94 {
        Some(String::from_str("Pu"))
    } else if code == 95 {
        Some(String::from_str("Am"))
    } else if code == 96 {
        Some(String::from_str("Cm"))
    } else if code == 97 {
        Some(String::from_str("Bk"))
    } else if code == 98 {
        Some(String::from_str("Cf"))
    } else if code == 99 {
        Some(String::from_str("Es"))
    } else if code == 100 {
        Some(String::from_str("Fm"))
    } else if code == 101 {
        Some(String::from_str("Md"))
    } else if code == 102 {
        Some(String::from_str("No"))
    } else if code == 103 {
        Some(String::from_str("Lr"))
    } else if code == 104 {
        Some(String::from_str("Rf"))
    } else if code == 105 {
        Some(String::from_str("Db"))
    } else if code == 106 {
        Some(String::from_str("Sg"))
    } else if code == 107 {
        Some(String::from_str("Bh"))
    } else if code == 108 {
        Some(String::from_str("Hs"))
    } else if code == 109 {
        Some(String::from_str("Mt"))
    } else if code == 110 {
        Some(String::from_str("Ds"))
    } else if code == 111 {
        Some(String::from_str("Rg"))
    } else if code == 112 {
        Some(String::from_str("Cn"))
    } else if code == 113 {
        Some(String::from_str("Nh"))
    } else if code == 114 {
        Some(String::from_str("Fl"))
    } else if code == 115 {
        Some(String::from_str("Mc"))
    } else if code == 116 {
        Some(String::from_str("Lv"))
    } else if code == 117 {
        Some(String::from_str("Ts"))
    } else if code == 118 {
        Some(String::from_str("Og"))
    } else {
        None
    }
}

/// Exec lookup of the numeric code for an element symbol: the smallest
/// code whose symbol reads as `symbol`, `None` when no code does.
pub fn element_symbol_to_num(symbol: &String) -> (r: Option<usize>)
    ensures
        match r {
            Some(n) => 1 <= n <= 118 && spec_element_symbol(n) == Some(symbol@) && (forall|
                m: usize,
            | 1 <= m < n ==> #[trigger] spec_element_symbol(m) != Some(symbol@)),
            None => forall|m: usize|
                1 <= m <= 118 ==> #[trigger] spec_element_symbol(m) != Some(symbol@),
        },
{
    let mut code: usize = 1;
    while code <= 118
        invariant
            1 <= code <= 119,
            forall|m: usize| 1 <= m < code ==> #[trigger] spec_element_symbol(m) != Some(symbol@),
        decreases 119 - code,
    {
        match element_num_to_symbol(code) {
            Some(s) => {
                if s == *symbol {
                    return Some(code);
                }
            },
            None => (),
        }
        code = code + 1;
    }
    None
}

} // verus!
