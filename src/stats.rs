//! Statistics collected while mapping: how many entries each group received.
use crate::order::{is_stable_order, stable_order};
use crate::tally::Tally;
use crate::text::{center, center_string, decimal, decimal_string, pad_left, pad_left_string};
use vstd::prelude::*;
use vstd::string::*;

verus! {

/// The distribution key of a group: its name followed by ` [category]`.
pub open spec fn display_key(name: Seq<char>, category: nat) -> Seq<char> {
    name + seq![' ', '['] + decimal(category) + seq![']']
}

/// The display width used when the terminal's width is unknown.
pub const DEFAULT_MAX_WIDTH_HISTOGRAM: u16 = 80;

/// The display width: the detected one, else the default.
pub open spec fn histogram_width(detected: Option<u16>) -> nat {
    match detected {
        Some(w) => w as nat,
        None => DEFAULT_MAX_WIDTH_HISTOGRAM as nat,
    }
}

/// The longest key, in characters, of the first `m` entries.
pub open spec fn max_key_len(d: Seq<(Seq<char>, int)>, m: int) -> nat
    decreases m,
{
    if m <= 0 {
        0
    } else {
        let prev = max_key_len(d, m - 1);
        if d[m - 1].0.len() > prev {
            d[m - 1].0.len()
        } else {
            prev
        }
    }
}

/// The largest count of the first `m` entries (0 where there are none).
pub open spec fn max_count(d: Seq<(Seq<char>, int)>, m: int) -> int
    decreases m,
{
    if m <= 0 {
        0
    } else {
        let prev = max_count(d, m - 1);
        if d[m - 1].1 > prev {
            d[m - 1].1
        } else {
            prev
        }
    }
}

/// Sort keys that put larger counts first.
pub open spec fn descending_keys(d: Seq<(Seq<char>, int)>) -> Seq<int> {
    d.map_values(|e: (Seq<char>, int)| -e.1)
}

/// The entries by descending count; equal counts keep their order.
pub open spec fn ordered_entries(d: Seq<(Seq<char>, int)>) -> Seq<(Seq<char>, int)> {
    let o = choose|o: Seq<int>| is_stable_order(descending_keys(d), o);
    o.map_values(|j: int| d[j])
}

/// The columns left for the bars: the width less the key column and `": "`, or none.
pub open spec fn bar_room(width: nat, key_width: nat) -> nat {
    if width >= key_width + 2 {
        (width - key_width - 2) as nat
    } else {
        0
    }
}

/// The bar of a count: `count / max * room`, rounded to the nearest integer (halves
/// up); none where the largest count is 0.
pub open spec fn bar_width(count: nat, max: nat, room: nat) -> nat {
    if max == 0 {
        0
    } else {
        (2 * (count * room) + max) / (2 * max)
    }
}

/// One line of the histogram: the key right-aligned in the key column, `": "`, and the
/// count right-aligned at the end of its bar.
pub open spec fn histogram_line(
    name: Seq<char>,
    count: nat,
    key_width: nat,
    max: nat,
    width: nat,
) -> Seq<char> {
    pad_left(name, key_width) + seq![':', ' '] + pad_left(
        decimal(count),
        bar_width(count, max, bar_room(width, key_width)),
    )
}

/// The histogram of a distribution at a display width: the number of keys, an empty
/// line, the banner, and a line per entry by descending count.
pub open spec fn histogram_lines(d: Seq<(Seq<char>, int)>, width: nat) -> Seq<Seq<char>> {
    let key_width = max_key_len(d, d.len() as int);
    let max = max_count(d, d.len() as int) as nat;
    seq![
        decimal(d.len()) + " distinct categories are in use"@,
        Seq::<char>::empty(),
        center(" Assignment group distribution "@, width, '='),
    ] + ordered_entries(d).map_values(
        |e: (Seq<char>, int)| histogram_line(e.0, e.1 as nat, key_width, max, width),
    )
}

/// The longest key (in characters) and the largest count of a distribution.
pub fn get_max_values(distribution: &Tally) -> (r: (usize, usize))
    requires
        distribution.wf(),
    ensures
        r.0 as nat == max_key_len(distribution@, distribution@.len() as int),
        r.1 as int == max_count(distribution@, distribution@.len() as int),
{
    let mut max_key: usize = 0;
    let mut max_amount: usize = 0;
    let mut i: usize = 0;
    while i < distribution.keys.len()
        invariant
            distribution.wf(),
            i <= distribution@.len(),
            max_key as nat == max_key_len(distribution@, i as int),
            max_amount as int == max_count(distribution@, i as int),
        decreases distribution@.len() - i,
    {
        let len = distribution.keys[i].as_str().unicode_len();
        if len > max_key {
            max_key = len;
        }
        if distribution.counts[i] > max_amount {
            max_amount = distribution.counts[i];
        }
        i = i + 1;
    }
    (max_key, max_amount)
}

/// Every count is at most the largest count.
pub proof fn lemma_max_count_bound(d: Seq<(Seq<char>, int)>, m: int, j: int)
    requires
        0 <= j < m <= d.len(),
    ensures
        d[j].1 <= max_count(d, m),
    decreases m,
{
    if j < m - 1 {
        lemma_max_count_bound(d, m - 1, j);
    }
}

/// Statistics collected during the conversion.
pub struct Stats {
    /// Occurrences per distribution key (see `display_key`), in order of first use.
    pub distribution: Tally,
}

impl Stats {
    /// The distribution is well formed.
    pub open spec fn wf(&self) -> bool {
        self.distribution.wf()
    }

    /// How often `key` was counted.
    pub open spec fn count(&self, key: Seq<char>) -> int {
        self.distribution.count(key)
    }

    /// Statistics with an empty distribution.
    pub fn new() -> (r: Stats)
        ensures
            r.wf(),
            r.distribution@.len() == 0,
            forall|k: Seq<char>| #[trigger] r.count(k) == 0,
    {
        Stats { distribution: Tally::new() }
    }

    /// Counts one more occurrence of the group named `key` with the given category.
    pub fn inc_distribution(&mut self, key: &String, category: usize)
        requires
            old(self).wf(),
            old(self).count(display_key(key@, category as nat)) < usize::MAX,
        ensures
            final(self).wf(),
            forall|k: Seq<char>|
                #[trigger] final(self).count(k) == old(self).count(k) + if k == display_key(
                    key@,
                    category as nat,
                ) {
                    1int
                } else {
                    0int
                },
    {
        let mut display_name = key.clone();
        proof {
            reveal_strlit(" [");
            reveal_strlit("]");
        }
        display_name.append(" [");
        let digits = decimal_string(category);
        display_name.append(digits.as_str());
        display_name.append("]");
        assert(display_name@ =~= display_key(key@, category as nat));
        self.distribution.increment(display_name);
    }

    /// The histogram of the distribution, line by line, for the detected display width
    /// (`None`: the default width).
    pub fn render_histogram(&self, detected_width: Option<u16>) -> (r: Vec<String>)
        requires
            self.wf(),
        ensures
            r@.map_values(|l: String| l@) == histogram_lines(
                self.distribution@,
                histogram_width(detected_width),
            ),
    {
        let d = &self.distribution;
        let ghost dv = d@;
        let width: usize = match detected_width {
            Some(w) => w as usize,
            None => DEFAULT_MAX_WIDTH_HISTOGRAM as usize,
        };
        let mut keys: Vec<i128> = Vec::new();
        let mut i: usize = 0;
        while i < d.counts.len()
            invariant
                d.wf(),
                dv == d@,
                i <= dv.len(),
                keys@.len() == i,
                forall|j: int| 0 <= j < i ==> keys@[j] as int == -dv[j].1,
            decreases dv.len() - i,
        {
            keys.push(-(d.counts[i] as i128));
            i = i + 1;
        }
        assert(keys@.map_values(|k: i128| k as int) =~= descending_keys(dv));
        let order = stable_order(&keys);
        let ghost o = order@.map_values(|i: usize| i as int);
        proof {
            let c = choose|c: Seq<int>| is_stable_order(descending_keys(dv), c);
            crate::categories::lemma_stable_order_unique(descending_keys(dv), o, c);
        }
        let (max_key, max_amount) = get_max_values(d);
        let room: usize = if max_key <= width && width - max_key >= 2 {
            width - max_key - 2
        } else {
            0
        };
        let mut lines: Vec<String> = Vec::new();
        let mut header = decimal_string(d.keys.len());
        header.append(" distinct categories are in use");
        lines.push(header);
        lines.push(String::new());
        proof {
            reveal_strlit("=");
        }
        lines.push(center_string(" Assignment group distribution ", width, "="));
        let ghost head = lines@.map_values(|l: String| l@);
        assert(head[0] == decimal(dv.len()) + " distinct categories are in use"@);
        assert(head[1] == Seq::<char>::empty());
        assert(head[2] == center(" Assignment group distribution "@, width as nat, '='));
        let ghost ordered = ordered_entries(dv);
        let mut k: usize = 0;
        while k < order.len()
            invariant
                d.wf(),
                dv == d@,
                is_stable_order(descending_keys(dv), o),
                o == order@.map_values(|i: usize| i as int),
                ordered == o.map_values(|j: int| dv[j]),
                k <= order@.len(),
                head.len() == 3,
                max_key as nat == max_key_len(dv, dv.len() as int),
                max_amount as int == max_count(dv, dv.len() as int),
                room as nat == bar_room(width as nat, max_key as nat),
                room <= width <= 0xffff,
                lines@.len() == 3 + k,
                forall|l: int| 0 <= l < 3 ==> #[trigger] lines@[l]@ == head[l],
                forall|l: int|
                    0 <= l < k ==> #[trigger] lines@[3 + l]@ == histogram_line(
                        ordered[l].0,
                        ordered[l].1 as nat,
                        max_key as nat,
                        max_amount as nat,
                        width as nat,
                    ),
            decreases order@.len() - k,
        {
            assert(o[k as int] == order@[k as int] as int);
            let j = order[k];
            let count = d.counts[j];
            let bar: usize = if max_amount == 0 {
                0
            } else {
                assert(count <= max_amount) by {
                    lemma_max_count_bound(dv, dv.len() as int, j as int);
                };
                assert((count as u128) * (room as u128) <= 0x1_0000_0000_0000_0000 * 0x1_0000)
                    by (nonlinear_arith)
                    requires
                        count <= usize::MAX,
                        room <= 0xffff,
                ;
                let numerator: u128 = 2 * ((count as u128) * (room as u128)) + max_amount as u128;
                let b = numerator / (2 * max_amount as u128);
                assert(b <= room) by (nonlinear_arith)
                    requires
                        b == (2 * (count * room) + max_amount) / (2 * max_amount),
                        count <= max_amount,
                        max_amount > 0,
                ;
                assert(b as nat == bar_width(count as nat, max_amount as nat, room as nat));
                b as usize
            };
            assert(ordered[k as int] == dv[j as int]);
            assert(bar as nat == bar_width(count as nat, max_amount as nat, room as nat));
            let mut line = pad_left_string(d.keys[j].as_str(), max_key);
            proof {
                reveal_strlit(": ");
            }
            line.append(": ");
            let amount = decimal_string(count);
            let padded = pad_left_string(amount.as_str(), bar);
            line.append(padded.as_str());
            assert(line@ =~= histogram_line(
                ordered[k as int].0,
                ordered[k as int].1 as nat,
                max_key as nat,
                max_amount as nat,
                width as nat,
            ));
            lines.push(line);
            k = k + 1;
        }
        let ghost expected = histogram_lines(dv, width as nat);
        let ghost got = lines@.map_values(|x: String| x@);
        assert forall|l: int| 0 <= l < lines@.len() implies #[trigger] got[l] == expected[l] by {
            if l >= 3 {
                assert(lines@[3 + (l - 3)]@ == histogram_line(
                    ordered[l - 3].0,
                    ordered[l - 3].1 as nat,
                    max_key as nat,
                    max_amount as nat,
                    width as nat,
                ));
            } else {
                assert(lines@[l]@ == head[l]);
            }
        };
        assert(got =~= expected);
        lines
    }
}

impl Default for Stats {
    /// Statistics with an empty distribution.
    fn default() -> (r: Stats)
        ensures
            r.wf(),
            r.distribution@.len() == 0,
    {
        Stats::new()
    }
}

} // verus!
