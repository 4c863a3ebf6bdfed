//! Draw-structure descriptions: each lottery is a list of components.
use vstd::prelude::*;

verus! {

/// One part of a draw.
pub enum Component {
    /// `pick` distinct numbers drawn without replacement from `1..=size`.
    Pool { label: &'static str, size: u32, pick: u32 },
    /// Independent positions; position `i` takes a value in `0..bases[i]`, repeats allowed.
    Digits { label: &'static str, bases: Vec<u32> },
}

/// Where a game's draw notices can be requested (the `name` query parameter).
pub struct FetchSource {
    pub name_param: &'static str,
}

pub struct GameSpec {
    pub key: &'static str,
    pub name: &'static str,
    pub file: &'static str,
    pub components: Vec<Component>,
    pub fetch: Option<FetchSource>,
}

/// Number of number-fields a component occupies in one data row.
pub open spec fn comp_width(c: Component) -> nat {
    match c {
        Component::Pool { pick, .. } => pick as nat,
        Component::Digits { bases, .. } => bases@.len(),
    }
}

/// Total number-fields of a list of components.
pub open spec fn widths_sum(cs: Seq<Component>) -> nat
    decreases cs.len(),
{
    if cs.len() == 0 {
        0
    } else {
        widths_sum(cs.drop_last()) + comp_width(cs.last())
    }
}

/// Expected field count of one row: issue + date + all numbers.
pub open spec fn spec_field_count(g: GameSpec) -> nat {
    2 + widths_sum(g.components@)
}

impl Component {
    pub fn width(&self) -> (w: usize)
        ensures
            w == comp_width(*self),
    {
        match self {
            Component::Pool { pick, .. } => *pick as usize,
            Component::Digits { bases, .. } => bases.len(),
        }
    }
}

impl GameSpec {
    pub fn field_count(&self) -> (n: usize)
        requires
            spec_field_count(*self) <= usize::MAX,
        ensures
            n == spec_field_count(*self),
    {
        let mut total: usize = 2;
        let mut i: usize = 0;
        while i < self.components.len()
            invariant
                i <= self.components@.len(),
                total == 2 + widths_sum(self.components@.take(i as int)),
                spec_field_count(*self) <= usize::MAX,
            decreases self.components@.len() - i,
        {
            proof {
                lemma_widths_sum_take_mono(self.components@, (i + 1) as int, self.components@.len() as int);
                assert(self.components@.take(i + 1).drop_last() =~= self.components@.take(i as int));
                assert(self.components@.take(self.components@.len() as int) =~= self.components@);
            }
            let w = self.components[i].width();
            total = total + w;
            i = i + 1;
        }
        proof {
            assert(self.components@.take(self.components@.len() as int) =~= self.components@);
        }
        total
    }
}

/// Sums over prefixes grow with the prefix.
pub proof fn lemma_widths_sum_take_mono(cs: Seq<Component>, i: int, j: int)
    requires
        0 <= i <= j <= cs.len(),
    ensures
        widths_sum(cs.take(i)) <= widths_sum(cs.take(j)),
    decreases j - i,
{
    if i < j {
        lemma_widths_sum_take_mono(cs, i, j - 1);
        assert(cs.take(j).drop_last() =~= cs.take(j - 1));
    }
}


/// `c` is a pool component with the given label, size and pick count.
pub open spec fn is_pool(c: Component, label: Seq<char>, size: u32, pick: u32) -> bool {
    &&& c matches Component::Pool { label: l, size: s, pick: p }
    &&& l@ == label
    &&& s == size
    &&& p == pick
}

/// `c` is a digit component with the given label and per-position bases.
pub open spec fn is_digits(c: Component, label: Seq<char>, bases: Seq<u32>) -> bool {
    &&& c matches Component::Digits { label: l, bases: b }
    &&& l@ == label
    &&& b@ == bases
}

/// `g` has the given key, display name, data file and fetch parameter.
pub open spec fn game_is(
    g: GameSpec,
    key: Seq<char>,
    name: Seq<char>,
    file: Seq<char>,
    fetch: Option<Seq<char>>,
) -> bool {
    &&& g.key@ == key
    &&& g.name@ == name
    &&& g.file@ == file
    &&& match fetch {
        Some(p) => g.fetch matches Some(src) && src.name_param@ == p,
        None => g.fetch is None,
    }
}

/// `r` is the table of the eight games with real-draw data, in display order.
pub open spec fn is_game_table(r: Seq<GameSpec>) -> bool {
    &&& r.len() == 8
    &&& game_is(r[0], "ssq"@, "双色球"@, "data/ssq.csv"@, Some("ssq"@))
    &&& r[0].components@.len() == 2
    &&& is_pool(r[0].components@[0], "红球"@, 33, 6)
    &&& is_pool(r[0].components@[1], "蓝球"@, 16, 1)
    &&& game_is(r[1], "dlt"@, "超级大乐透"@, "data/dlt.csv"@, None)
    &&& r[1].components@.len() == 2
    &&& is_pool(r[1].components@[0], "前区"@, 35, 5)
    &&& is_pool(r[1].components@[1], "后区"@, 12, 2)
    &&& game_is(r[2], "d3"@, "福彩3D"@, "data/d3.csv"@, Some("3d"@))
    &&& r[2].components@.len() == 1
    &&& is_digits(r[2].components@[0], "直选"@, seq![10u32, 10u32, 10u32])
    &&& game_is(r[3], "pl3"@, "排列3"@, "data/pl3.csv"@, None)
    &&& r[3].components@.len() == 1
    &&& is_digits(r[3].components@[0], "直选"@, seq![10u32, 10u32, 10u32])
    &&& game_is(r[4], "pl5"@, "排列5"@, "data/pl5.csv"@, None)
    &&& r[4].components@.len() == 1
    &&& is_digits(r[4].components@[0], "直选"@, seq![10u32, 10u32, 10u32, 10u32, 10u32])
    &&& game_is(r[5], "qxc"@, "7星彩"@, "data/qxc.csv"@, None)
    &&& r[5].components@.len() == 1
    &&& is_digits(r[5].components@[0], "直选"@, seq![10u32, 10u32, 10u32, 10u32, 10u32, 10u32, 15u32])
    &&& game_is(r[6], "qlc"@, "7乐彩"@, "data/qlc.csv"@, Some("qlc"@))
    &&& r[6].components@.len() == 1
    &&& is_pool(r[6].components@[0], "号码"@, 30, 7)
    &&& game_is(r[7], "kl8"@, "快乐8"@, "data/kl8.csv"@, Some("kl8"@))
    &&& r[7].components@.len() == 1
    &&& is_pool(r[7].components@[0], "号码"@, 80, 20)
}

/// The eight games with real-draw data, in display order.
pub fn real_data_games() -> (r: Vec<GameSpec>)
    ensures
        is_game_table(r@),
{
    vec![
        GameSpec {
            key: "ssq",
            name: "双色球",
            file: "data/ssq.csv",
            components: vec![Component::Pool { label: "红球", size: 33, pick: 6 }, Component::Pool { label: "蓝球", size: 16, pick: 1 }],
            fetch: Some(FetchSource { name_param: "ssq" }),
        },
        GameSpec {
            key: "dlt",
            name: "超级大乐透",
            file: "data/dlt.csv",
            components: vec![Component::Pool { label: "前区", size: 35, pick: 5 }, Component::Pool { label: "后区", size: 12, pick: 2 }],
            fetch: None,
        },
        GameSpec {
            key: "d3",
            name: "福彩3D",
            file: "data/d3.csv",
            components: vec![Component::Digits { label: "直选", bases: vec![10, 10, 10] }],
            fetch: Some(FetchSource { name_param: "3d" }),
        },
        GameSpec {
            key: "pl3",
            name: "排列3",
            file: "data/pl3.csv",
            components: vec![Component::Digits { label: "直选", bases: vec![10, 10, 10] }],
            fetch: None,
        },
        GameSpec {
            key: "pl5",
            name: "排列5",
            file: "data/pl5.csv",
            components: vec![Component::Digits { label: "直选", bases: vec![10, 10, 10, 10, 10] }],
            fetch: None,
        },
        GameSpec {
            key: "qxc",
            name: "7星彩",
            file: "data/qxc.csv",
            components: vec![Component::Digits { label: "直选", bases: vec![10, 10, 10, 10, 10, 10, 15] }],
            fetch: None,
        },
        GameSpec {
            key: "qlc",
            name: "7乐彩",
            file: "data/qlc.csv",
            components: vec![Component::Pool { label: "号码", size: 30, pick: 7 }],
            fetch: Some(FetchSource { name_param: "qlc" }),
        },
        GameSpec {
            key: "kl8",
            name: "快乐8",
            file: "data/kl8.csv",
            components: vec![Component::Pool { label: "号码", size: 80, pick: 20 }],
            fetch: Some(FetchSource { name_param: "kl8" }),
        },
    ]
}

} // verus!
