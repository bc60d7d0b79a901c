use vstd::prelude::*;

use crate::registry::{RawGood, RawGoodView, raws_view};
use crate::text::{chars_of, trim_bounds, trim_ws};

verus! {

/// What `scraper` reads from an HTML document: for each `tr` element, in document
/// order, its `td` descendants, each as the list of its descendant text nodes.
pub uninterp spec fn html_table_cells(markup: Seq<char>) -> Seq<Seq<Seq<Seq<char>>>>;

pub open spec fn cells_view(rows: Seq<Vec<Vec<String>>>) -> Seq<Seq<Seq<Seq<char>>>> {
    rows.map_values(|r: Vec<Vec<String>>| r@.map_values(|c: Vec<String>| c@.map_values(|t: String| t@)))
}

/// Parses `markup` with `scraper::Html::parse_document` and lists, for each element that
/// the selector `tr` matches, the elements below it that `td` matches, each with the text
/// nodes that `ElementRef::text` yields. The result is named, not described: it is
/// whatever the HTML parser makes of the markup. Both selectors are valid, so their
/// `Selector::parse` never fails.
#[verifier::external_body]
fn table_cells(markup: &str) -> (r: Vec<Vec<Vec<String>>>)
    ensures
        cells_view(r@) == html_table_cells(markup@),
{
    let doc = scraper::Html::parse_document(markup);
    let row_selector = scraper::Selector::parse("tr").unwrap();
    let cell_selector = scraper::Selector::parse("td").unwrap();
    let mut rows = Vec::new();
    for row in doc.select(&row_selector) {
        let mut cells = Vec::new();
        for cell in row.select(&cell_selector) {
            cells.push(cell.text().map(String::from).collect());
        }
        rows.push(cells);
    }
    rows
}

/// The text pieces joined with single spaces.
pub open spec fn join_space(frags: Seq<Seq<char>>) -> Seq<char>
    decreases frags.len(),
{
    if frags.len() == 0 {
        Seq::empty()
    } else if frags.len() == 1 {
        frags[0]
    } else {
        join_space(frags.drop_last()) + seq![' '] + frags.last()
    }
}

/// The text of a table cell: its text pieces joined with spaces, then trimmed.
pub open spec fn cell_text(frags: Seq<Seq<char>>) -> Seq<char> {
    trim_ws(join_space(frags))
}

/// A goods-list row read as a raw good: title, level, price, time, experience, needs
/// and source, in the first seven cells.
pub open spec fn raw_good_of_row(row: Seq<Seq<Seq<char>>>) -> RawGoodView {
    RawGoodView {
        title: cell_text(row[0]),
        level: cell_text(row[1]),
        price: cell_text(row[2]),
        time: cell_text(row[3]),
        experience: cell_text(row[4]),
        needs: cell_text(row[5]),
        source: cell_text(row[6]),
    }
}

/// The raw goods of a table: one per row with at least seven cells, in row order.
pub open spec fn raw_goods_of(rows: Seq<Seq<Seq<Seq<char>>>>) -> Seq<RawGoodView>
    decreases rows.len(),
{
    if rows.len() == 0 {
        Seq::empty()
    } else {
        let r = raw_goods_of(rows.drop_last());
        if rows.last().len() >= 7 {
            r.push(raw_good_of_row(rows.last()))
        } else {
            r
        }
    }
}

/// The cell's text pieces, joined with spaces and trimmed.
fn cell_string(frags: &Vec<String>) -> (r: String)
    ensures
        r@ == cell_text(frags@.map_values(|t: String| t@)),
{
    let ghost fv = frags@.map_values(|t: String| t@);
    let mut joined = String::new();
    let mut i: usize = 0;
    proof {
        reveal_strlit(" ");
        assert(fv.take(0) =~= Seq::<Seq<char>>::empty());
    }
    while i < frags.len()
        invariant
            i <= frags@.len(),
            fv == frags@.map_values(|t: String| t@),
            joined@ == join_space(fv.take(i as int)),
        decreases frags@.len() - i,
    {
        let ghost j0 = joined@;
        assert(fv.take(i + 1).drop_last() =~= fv.take(i as int));
        assert(fv.take(i + 1).last() == frags@[i as int]@);
        if i > 0 {
            proof {
                reveal_strlit(" ");
            }
            joined.append(" ");
        }
        joined.append(frags[i].as_str());
        proof {
            if i == 0 {
                assert(joined@ =~= fv.take(1)[0]);
            } else {
                assert(joined@ =~= j0 + seq![' '] + fv.take(i + 1).last());
            }
        }
        i = i + 1;
    }
    assert(fv.take(frags@.len() as int) =~= fv);
    let s = chars_of(joined.as_str());
    let (a, b) = trim_bounds(&s, 0, s.len());
    assert(s@.subrange(0, s@.len() as int) =~= s@);
    joined.as_str().substring_char(a, b).to_owned()
}

/// The raw goods of a table of cells (see `raw_goods_of`).
pub fn raw_goods_from_cells(rows: &Vec<Vec<Vec<String>>>) -> (r: Vec<RawGood>)
    ensures
        raws_view(r@) == raw_goods_of(cells_view(rows@)),
{
    let ghost cv = cells_view(rows@);
    let mut r: Vec<RawGood> = Vec::new();
    let mut k: usize = 0;
    assert(cv.take(0) =~= Seq::<Seq<Seq<Seq<char>>>>::empty());
    assert(raws_view(r@) =~= Seq::<RawGoodView>::empty());
    while k < rows.len()
        invariant
            k <= rows@.len(),
            cv == cells_view(rows@),
            raws_view(r@) == raw_goods_of(cv.take(k as int)),
        decreases rows@.len() - k,
    {
        let ghost r0 = raws_view(r@);
        let row = &rows[k];
        assert(cv.take(k + 1).drop_last() =~= cv.take(k as int));
        assert(cv.take(k + 1).last() == cv[k as int]);
        assert(cv[k as int].len() == row@.len());
        if row.len() >= 7 {
            let g = RawGood {
                title: cell_string(&row[0]),
                level: cell_string(&row[1]),
                price: cell_string(&row[2]),
                time: cell_string(&row[3]),
                experience: cell_string(&row[4]),
                needs: cell_string(&row[5]),
                source: cell_string(&row[6]),
            };
            assert(g@ == raw_good_of_row(cv[k as int]));
            r.push(g);
            assert(raws_view(r@) =~= r0.push(g@));
        }
        k = k + 1;
    }
    assert(cv.take(rows@.len() as int) =~= cv);
    r
}

/// The raw goods of the goods-list page: its table rows with at least seven cells, each
/// cell's text joined with spaces and trimmed.
pub fn raw_goods_from_html(markup: &str) -> (r: Vec<RawGood>)
    ensures
        raws_view(r@) == raw_goods_of(html_table_cells(markup@)),
{
    let rows = table_cells(markup);
    raw_goods_from_cells(&rows)
}

} // verus!
