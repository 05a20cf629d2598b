//! Connectivity classes of grid cells and the glyphs that draw them.
//!
//! A filled cell is classified by which of its four neighbours are filled.
//! Each class carries a fixed number of payload bits and owns a family of
//! box-drawing glyphs, one glyph for every value of those bits.

use vstd::prelude::*;

verus! {

/// The corners that open to the right and downwards.
pub const TOP_LEFT: &'static str = "\u{250C}\u{250D}\u{250E}\u{250F}";

/// The corners that open to the left and downwards.
pub const TOP_RIGHT: &'static str = "\u{2510}\u{2511}\u{2512}\u{2513}";

/// The corners that open to the right and upwards.
pub const BOTTOM_LEFT: &'static str = "\u{2514}\u{2515}\u{2516}\u{2517}";

/// The corners that open to the left and upwards.
pub const BOTTOM_RIGHT: &'static str = "\u{2518}\u{2519}\u{251A}\u{251B}";

/// The junctions at a left edge: right, down and up.
pub const LEFT: &'static str = "\u{251C}\u{251D}\u{251E}\u{251F}\u{2520}\u{2521}\u{2522}\u{2523}";

/// The junctions at a right edge: left, down and up.
pub const RIGHT: &'static str = "\u{2524}\u{2525}\u{2526}\u{2527}\u{2528}\u{2529}\u{252A}\u{252B}";

/// The junctions at a top edge: right, left and down.
pub const TOP: &'static str = "\u{252C}\u{252D}\u{252E}\u{252F}\u{2530}\u{2531}\u{2532}\u{2533}";

/// The junctions at a bottom edge: right, left and up.
pub const BOTTOM: &'static str = "\u{2534}\u{2535}\u{2536}\u{2537}\u{2538}\u{2539}\u{253A}\u{253B}";

/// The crossings.
pub const CROSS: &'static str = "\u{253C}\u{253D}\u{253E}\u{253F}\u{2540}\u{2541}\u{2542}\u{2543}\u{2544}\u{2545}\u{2546}\u{2547}\u{2548}\u{2549}\u{254A}\u{254B}";

/// The lines from left to right.
pub const HORIZONTAL: &'static str = "\u{2500}\u{257C}\u{2501}\u{257E}";

/// The lines from top to bottom.
pub const VERTICAL: &'static str = "\u{2502}\u{257D}\u{2503}\u{257F}";

/// How a filled cell is joined to its filled neighbours.
#[derive(Clone, Copy, Debug, PartialEq, Eq, Structural)]
pub enum Connections {
    RightDown,
    LeftDown,
    RightUp,
    LeftUp,
    DownUp,
    RightLeft,
    RightLeftDown,
    RightLeftUp,
    RightDownUp,
    LeftDownUp,
    All,
}

/// The number of neighbours that are filled.
pub open spec fn neighbor_count(right: bool, left: bool, down: bool, up: bool) -> nat {
    (if right { 1nat } else { 0 }) + (if left { 1nat } else { 0 }) + (if down { 1nat } else { 0 })
        + (if up { 1nat } else { 0 })
}

/// The class of a filled cell with the given filled neighbours: none for a
/// cell with fewer than two of them.
pub open spec fn spec_classify(right: bool, left: bool, down: bool, up: bool) -> Option<
    Connections,
> {
    if right && left && !down && !up {
        Some(Connections::RightLeft)
    } else if !right && !left && down && up {
        Some(Connections::DownUp)
    } else if right && !left && down && !up {
        Some(Connections::RightDown)
    } else if !right && left && down && !up {
        Some(Connections::LeftDown)
    } else if right && !left && !down && up {
        Some(Connections::RightUp)
    } else if !right && left && !down && up {
        Some(Connections::LeftUp)
    } else if right && left && down && !up {
        Some(Connections::RightLeftDown)
    } else if right && left && !down && up {
        Some(Connections::RightLeftUp)
    } else if right && !left && down && up {
        Some(Connections::RightDownUp)
    } else if !right && left && down && up {
        Some(Connections::LeftDownUp)
    } else if right && left && down && up {
        Some(Connections::All)
    } else {
        None
    }
}

/// The payload width of a cell: the bits of its class, or nothing for a cell
/// without a class.
pub open spec fn class_bits(class: Option<Connections>) -> nat {
    match class {
        Some(c) => c.spec_bits(),
        None => 0,
    }
}

/// The first index at which `glyph` stands in `family`, if it does.
pub open spec fn spec_position(family: Seq<char>, glyph: char) -> Option<nat>
    decreases family.len(),
{
    if family.len() == 0 {
        None
    } else if family.last() == glyph && spec_position(family.drop_last(), glyph) is None {
        Some((family.len() - 1) as nat)
    } else {
        spec_position(family.drop_last(), glyph)
    }
}

/// The classes in the order in which a glyph is looked up: the widest
/// family first.
pub open spec fn lookup_order() -> Seq<Connections> {
    seq![
        Connections::All,
        Connections::RightDownUp,
        Connections::LeftDownUp,
        Connections::RightLeftDown,
        Connections::RightLeftUp,
        Connections::RightDown,
        Connections::LeftDown,
        Connections::RightUp,
        Connections::LeftUp,
        Connections::RightLeft,
        Connections::DownUp,
    ]
}

/// The symbol that `glyph` stands for, looking through the first `n`
/// families of the lookup order.
pub open spec fn spec_symbol_among(glyph: char, n: nat) -> Option<(u8, usize)>
    decreases n,
{
    if n == 0 || n > lookup_order().len() {
        None
    } else {
        match spec_symbol_among(glyph, (n - 1) as nat) {
            Some(symbol) => Some(symbol),
            None => {
                let class = lookup_order()[n - 1];
                match spec_position(class.glyphs(), glyph) {
                    Some(point) => Some((point as u8, class.spec_bits() as usize)),
                    None => None,
                }
            },
        }
    }
}

/// The symbol that `glyph` stands for: its position in the first family
/// that holds it, and that family's width in bits. None for a character that
/// is no glyph of any family.
pub open spec fn spec_glyph_symbol(glyph: char) -> Option<(u8, usize)> {
    spec_symbol_among(glyph, lookup_order().len())
}

impl Connections {
    /// The number of payload bits that a cell of this class carries: one for
    /// each filled neighbour.
    pub open spec fn spec_bits(self) -> nat {
        match self {
            Connections::RightDown => 2,
            Connections::LeftDown => 2,
            Connections::RightUp => 2,
            Connections::LeftUp => 2,
            Connections::DownUp => 2,
            Connections::RightLeft => 2,
            Connections::RightLeftDown => 3,
            Connections::RightLeftUp => 3,
            Connections::RightDownUp => 3,
            Connections::LeftDownUp => 3,
            Connections::All => 4,
        }
    }

    /// The glyphs of this class, in the order of the points they draw.
    pub open spec fn glyphs(self) -> Seq<char> {
        match self {
            Connections::RightDown => TOP_LEFT@,
            Connections::LeftDown => TOP_RIGHT@,
            Connections::RightUp => BOTTOM_LEFT@,
            Connections::LeftUp => BOTTOM_RIGHT@,
            Connections::DownUp => VERTICAL@,
            Connections::RightLeft => HORIZONTAL@,
            Connections::RightLeftDown => TOP@,
            Connections::RightLeftUp => BOTTOM@,
            Connections::RightDownUp => LEFT@,
            Connections::LeftDownUp => RIGHT@,
            Connections::All => CROSS@,
        }
    }

    /// Classifies a filled cell by its filled neighbours.
    pub fn classify(right: bool, left: bool, down: bool, up: bool) -> (class: Option<Connections>)
        ensures
            class == spec_classify(right, left, down, up),
            class is None <==> neighbor_count(right, left, down, up) < 2,
            class matches Some(c) ==> c.spec_bits() == neighbor_count(right, left, down, up),
    {
        match (right, left, down, up) {
            (true, true, false, false) => Some(Connections::RightLeft),
            (false, false, true, true) => Some(Connections::DownUp),
            (true, false, true, false) => Some(Connections::RightDown),
            (false, true, true, false) => Some(Connections::LeftDown),
            (true, false, false, true) => Some(Connections::RightUp),
            (false, true, false, true) => Some(Connections::LeftUp),
            (true, true, true, false) => Some(Connections::RightLeftDown),
            (true, true, false, true) => Some(Connections::RightLeftUp),
            (true, false, true, true) => Some(Connections::RightDownUp),
            (false, true, true, true) => Some(Connections::LeftDownUp),
            (true, true, true, true) => Some(Connections::All),
            _ => None,
        }
    }

    /// The number of payload bits that a cell of this class carries.
    pub fn get_bits(self) -> (bits: usize)
        ensures
            bits == self.spec_bits(),
            2 <= bits <= 4,
    {
        match self {
            Connections::RightDown => 2,
            Connections::LeftDown => 2,
            Connections::RightUp => 2,
            Connections::LeftUp => 2,
            Connections::DownUp => 2,
            Connections::RightLeft => 2,
            Connections::RightLeftDown => 3,
            Connections::RightLeftUp => 3,
            Connections::RightDownUp => 3,
            Connections::LeftDownUp => 3,
            Connections::All => 4,
        }
    }

    /// The family of this class as a string.
    pub fn family(self) -> (family: &'static str)
        ensures
            family@ == self.glyphs(),
    {
        match self {
            Connections::RightDown => TOP_LEFT,
            Connections::LeftDown => TOP_RIGHT,
            Connections::RightUp => BOTTOM_LEFT,
            Connections::LeftUp => BOTTOM_RIGHT,
            Connections::DownUp => VERTICAL,
            Connections::RightLeft => HORIZONTAL,
            Connections::RightLeftDown => TOP,
            Connections::RightLeftUp => BOTTOM,
            Connections::RightDownUp => LEFT,
            Connections::LeftDownUp => RIGHT,
            Connections::All => CROSS,
        }
    }

    /// The glyph that draws `point` in a cell of this class.
    pub fn get_character(self, point: u8) -> (glyph: char)
        requires
            point < self.glyphs().len(),
        ensures
            glyph == self.glyphs()[point as int],
    {
        self.family().get_char(point as usize)
    }

    /// The position of `glyph` in the family of this class.
    pub fn position_of(self, glyph: char) -> (position: Option<u8>)
        ensures
            match position {
                Some(point) => spec_position(self.glyphs(), glyph) == Some(point as nat),
                None => spec_position(self.glyphs(), glyph) is None,
            },
    {
        let family = self.family();
        proof {
            lemma_glyph_tables();
        }
        let count: usize = family.unicode_len();
        let mut found: Option<u8> = None;
        let mut i: usize = 0;
        while i < count
            invariant
                i <= count,
                count == family@.len(),
                count <= 16,
                match found {
                    Some(point) => spec_position(family@.take(i as int), glyph) == Some(
                        point as nat,
                    ),
                    None => spec_position(family@.take(i as int), glyph) is None,
                },
            decreases count - i,
        {
            let here = family.get_char(i);
            proof {
                assert(family@.take(i + 1).drop_last() == family@.take(i as int));
                assert(family@.take(i + 1).last() == here);
            }
            if found.is_none() && here == glyph {
                found = Some(i as u8);
            }
            i += 1;
        }
        proof {
            assert(family@.take(count as int) == family@);
        }
        found
    }
}

/// Looks a character up in the glyph families, the widest family first.
pub fn glyph_symbol(glyph: char) -> (symbol: Option<(u8, usize)>)
    ensures
        symbol == spec_glyph_symbol(glyph),
{
    let order: [Connections; 11] = [
        Connections::All,
        Connections::RightDownUp,
        Connections::LeftDownUp,
        Connections::RightLeftDown,
        Connections::RightLeftUp,
        Connections::RightDown,
        Connections::LeftDown,
        Connections::RightUp,
        Connections::LeftUp,
        Connections::RightLeft,
        Connections::DownUp,
    ];
    assert(order@ == lookup_order());
    let mut n: usize = 0;
    while n < 11
        invariant
            n <= 11,
            order@ == lookup_order(),
            spec_symbol_among(glyph, n as nat) is None,
        decreases 11 - n,
    {
        let class = order[n];
        if let Some(point) = class.position_of(glyph) {
            proof {
                lemma_symbol_found(glyph, (n + 1) as nat, 11);
            }
            return Some((point, class.get_bits()));
        }
        n += 1;
    }
    None
}

/// Once a family holds the glyph, looking through more families changes nothing.
proof fn lemma_symbol_found(glyph: char, n: nat, m: nat)
    requires
        n <= m <= lookup_order().len(),
        spec_symbol_among(glyph, n) is Some,
    ensures
        spec_symbol_among(glyph, m) == spec_symbol_among(glyph, n),
    decreases m,
{
    if n < m {
        lemma_symbol_found(glyph, n, (m - 1) as nat);
    }
}

/// The glyphs of each family, written out.
pub proof fn lemma_glyph_tables()
    ensures
        TOP_LEFT@ == seq!['\u{250C}', '\u{250D}', '\u{250E}', '\u{250F}'],
        TOP_RIGHT@ == seq!['\u{2510}', '\u{2511}', '\u{2512}', '\u{2513}'],
        BOTTOM_LEFT@ == seq!['\u{2514}', '\u{2515}', '\u{2516}', '\u{2517}'],
        BOTTOM_RIGHT@ == seq!['\u{2518}', '\u{2519}', '\u{251A}', '\u{251B}'],
        LEFT@ == seq![
            '\u{251C}',
            '\u{251D}',
            '\u{251E}',
            '\u{251F}',
            '\u{2520}',
            '\u{2521}',
            '\u{2522}',
            '\u{2523}',
        ],
        RIGHT@ == seq![
            '\u{2524}',
            '\u{2525}',
            '\u{2526}',
            '\u{2527}',
            '\u{2528}',
            '\u{2529}',
            '\u{252A}',
            '\u{252B}',
        ],
        TOP@ == seq![
            '\u{252C}',
            '\u{252D}',
            '\u{252E}',
            '\u{252F}',
            '\u{2530}',
            '\u{2531}',
            '\u{2532}',
            '\u{2533}',
        ],
        BOTTOM@ == seq![
            '\u{2534}',
            '\u{2535}',
            '\u{2536}',
            '\u{2537}',
            '\u{2538}',
            '\u{2539}',
            '\u{253A}',
            '\u{253B}',
        ],
        CROSS@ == seq![
            '\u{253C}',
            '\u{253D}',
            '\u{253E}',
            '\u{253F}',
            '\u{2540}',
            '\u{2541}',
            '\u{2542}',
            '\u{2543}',
            '\u{2544}',
            '\u{2545}',
            '\u{2546}',
            '\u{2547}',
            '\u{2548}',
            '\u{2549}',
            '\u{254A}',
            '\u{254B}',
        ],
        HORIZONTAL@ == seq!['\u{2500}', '\u{257C}', '\u{2501}', '\u{257E}'],
        VERTICAL@ == seq!['\u{2502}', '\u{257D}', '\u{2503}', '\u{257F}'],
        forall|class: Connections| #[trigger] class.glyphs().len() == vstd::arithmetic::power2::pow2(class.spec_bits()),
{
    reveal_strlit("\u{250C}\u{250D}\u{250E}\u{250F}");
    reveal_strlit("\u{2510}\u{2511}\u{2512}\u{2513}");
    reveal_strlit("\u{2514}\u{2515}\u{2516}\u{2517}");
    reveal_strlit("\u{2518}\u{2519}\u{251A}\u{251B}");
    reveal_strlit("\u{251C}\u{251D}\u{251E}\u{251F}\u{2520}\u{2521}\u{2522}\u{2523}");
    reveal_strlit("\u{2524}\u{2525}\u{2526}\u{2527}\u{2528}\u{2529}\u{252A}\u{252B}");
    reveal_strlit("\u{252C}\u{252D}\u{252E}\u{252F}\u{2530}\u{2531}\u{2532}\u{2533}");
    reveal_strlit("\u{2534}\u{2535}\u{2536}\u{2537}\u{2538}\u{2539}\u{253A}\u{253B}");
    reveal_strlit(
        "\u{253C}\u{253D}\u{253E}\u{253F}\u{2540}\u{2541}\u{2542}\u{2543}\u{2544}\u{2545}\u{2546}\u{2547}\u{2548}\u{2549}\u{254A}\u{254B}",
    );
    reveal_strlit("\u{2500}\u{257C}\u{2501}\u{257E}");
    reveal_strlit("\u{2502}\u{257D}\u{2503}\u{257F}");
    vstd::arithmetic::power2::lemma2_to64();
}

/// The code point of the glyph at `point` in the family of `class`.
pub open spec fn glyph_code(class: Connections, point: int) -> int {
    match class {
        Connections::RightDown => 0x250C + point,
        Connections::LeftDown => 0x2510 + point,
        Connections::RightUp => 0x2514 + point,
        Connections::LeftUp => 0x2518 + point,
        Connections::RightDownUp => 0x251C + point,
        Connections::LeftDownUp => 0x2524 + point,
        Connections::RightLeftDown => 0x252C + point,
        Connections::RightLeftUp => 0x2534 + point,
        Connections::All => 0x253C + point,
        Connections::RightLeft => if point % 2 == 0 {
            0x2500 + point / 2
        } else {
            0x257B + point
        },
        Connections::DownUp => if point % 2 == 0 {
            0x2502 + point / 2
        } else {
            0x257C + point
        },
    }
}

/// Every glyph of every family has the code point that `glyph_code` gives.
pub proof fn lemma_glyph_codes(class: Connections, point: int)
    requires
        0 <= point < class.glyphs().len(),
    ensures
        class.glyphs()[point] as int == glyph_code(class, point),
{
    lemma_glyph_tables();
}

/// No glyph belongs to two families, and none stands twice in its own: a
/// glyph names its class and its point.
pub proof fn lemma_glyphs_distinct(a: Connections, i: int, b: Connections, j: int)
    requires
        0 <= i < a.glyphs().len(),
        0 <= j < b.glyphs().len(),
        a.glyphs()[i] == b.glyphs()[j],
    ensures
        a == b,
        i == j,
{
    lemma_glyph_tables();
    lemma_glyph_codes(a, i);
    lemma_glyph_codes(b, j);
}

/// What `spec_position` finds is the first occurrence, and it finds nothing
/// only where there is none.
pub proof fn lemma_position(family: Seq<char>, glyph: char)
    ensures
        match spec_position(family, glyph) {
            Some(p) => p < family.len() && family[p as int] == glyph && forall|j: int|
                0 <= j < p ==> family[j] != glyph,
            None => forall|j: int| 0 <= j < family.len() ==> family[j] != glyph,
        },
    decreases family.len(),
{
    if family.len() > 0 {
        let front = family.drop_last();
        lemma_position(front, glyph);
        assert(forall|j: int| 0 <= j < front.len() ==> front[j] == family[j]);
        match spec_position(front, glyph) {
            Some(p) => {
                assert(front[p as int] == glyph);
            },
            None => {
                assert forall|j: int| 0 <= j < family.len() - 1 implies family[j] != glyph by {
                    assert(front[j] != glyph);
                }
            },
        }
    }
}

/// The order in which the families are searched does not matter: a glyph is
/// found as the point and width of the one class that holds it.
pub proof fn lemma_glyph_symbol_of_glyph(class: Connections, point: u8)
    requires
        point < class.glyphs().len(),
    ensures
        spec_glyph_symbol(class.glyphs()[point as int]) == Some(
            (point, class.spec_bits() as usize),
        ),
{
    let glyph = class.glyphs()[point as int];
    let order = lookup_order();
    assert(exists|k: int| 0 <= k < order.len() && order[k] == class) by {
        match class {
            Connections::All => assert(order[0] == class),
            Connections::RightDownUp => assert(order[1] == class),
            Connections::LeftDownUp => assert(order[2] == class),
            Connections::RightLeftDown => assert(order[3] == class),
            Connections::RightLeftUp => assert(order[4] == class),
            Connections::RightDown => assert(order[5] == class),
            Connections::LeftDown => assert(order[6] == class),
            Connections::RightUp => assert(order[7] == class),
            Connections::LeftUp => assert(order[8] == class),
            Connections::RightLeft => assert(order[9] == class),
            Connections::DownUp => assert(order[10] == class),
        }
    }
    let k = choose|k: int| 0 <= k < order.len() && order[k] == class;
    lemma_symbol_among(class, point, k, order.len());
}

/// Looking through the first `n` families finds the glyph of `class` at
/// `point` exactly when `class`, the `k`-th of the order, is among them.
proof fn lemma_symbol_among(class: Connections, point: u8, k: int, n: nat)
    requires
        point < class.glyphs().len(),
        0 <= k < lookup_order().len(),
        lookup_order()[k] == class,
        n <= lookup_order().len(),
    ensures
        spec_symbol_among(class.glyphs()[point as int], n) == if k < n {
            Some((point, class.spec_bits() as usize))
        } else {
            None
        },
    decreases n,
{
    if n > 0 {
        let glyph = class.glyphs()[point as int];
        let other = lookup_order()[n - 1];
        lemma_symbol_among(class, point, k, (n - 1) as nat);
        lemma_position(other.glyphs(), glyph);
        match spec_position(other.glyphs(), glyph) {
            Some(p) => {
                lemma_glyphs_distinct(other, p as int, class, point as int);
            },
            None => {
                if other == class {
                    assert(other.glyphs()[point as int] == glyph);
                }
            },
        }
        if k < n - 1 {
        } else if k == n - 1 {
            assert(other == class);
        } else {
            assert(lookup_order().no_duplicates()) by {
                assert(lookup_order().len() == 11);
            }
        }
    }
}

/// A family has one glyph for every value of its bits.
pub proof fn lemma_family_size(class: Connections)
    ensures
        class.glyphs().len() == vstd::arithmetic::power2::pow2(class.spec_bits()),
        4 <= class.glyphs().len() <= 16,
{
    lemma_glyph_tables();
    vstd::arithmetic::power2::lemma2_to64();
}

/// Whether `glyph` draws the point of `symbol` in `class`, and `class` has
/// the width of `symbol`.
pub open spec fn draws(class: Connections, symbol: (u8, usize), glyph: char) -> bool {
    &&& class.spec_bits() == symbol.1
    &&& symbol.0 < class.glyphs().len()
    &&& class.glyphs()[symbol.0 as int] == glyph
}

/// A glyph lookup finds a symbol only for a glyph that draws it, and finds
/// nothing only for a character that is no glyph of any family.
pub proof fn lemma_glyph_symbol_sound(glyph: char)
    ensures
        match spec_glyph_symbol(glyph) {
            Some(symbol) => exists|class: Connections| #[trigger] draws(class, symbol, glyph),
            None => forall|class: Connections, point: int|
                0 <= point < class.glyphs().len() ==> #[trigger] class.glyphs()[point] != glyph,
        },
{
    lemma_glyph_tables();
    lemma_symbol_sound_among(glyph, lookup_order().len());
    if spec_glyph_symbol(glyph) is None {
        assert forall|class: Connections, point: int|
            0 <= point < class.glyphs().len() implies #[trigger] class.glyphs()[point] != glyph by {
            if class.glyphs()[point] == glyph {
                lemma_glyph_symbol_of_glyph(class, point as u8);
            }
        }
    }
}

/// A symbol found among the first `n` families is drawn by its glyph.
proof fn lemma_symbol_sound_among(glyph: char, n: nat)
    requires
        n <= lookup_order().len(),
    ensures
        match spec_symbol_among(glyph, n) {
            Some(symbol) => exists|class: Connections| #[trigger] draws(class, symbol, glyph),
            None => true,
        },
    decreases n,
{
    if let Some(symbol) = spec_symbol_among(glyph, n) {
        let before = spec_symbol_among(glyph, (n - 1) as nat);
        let last = lookup_order()[n - 1];
        lemma_symbol_sound_among(glyph, (n - 1) as nat);
        lemma_position(last.glyphs(), glyph);
        lemma_family_size(last);
        let class = if before is Some {
            choose|class: Connections| #[trigger] draws(class, symbol, glyph)
        } else {
            last
        };
        assert(draws(class, symbol, glyph));
    }
}

} // verus!
