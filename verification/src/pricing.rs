//! What the analysis service charges.
//!
//! Amounts are double-precision numbers held by their rank in the total order of such numbers:
//! for a number that is not negative, its bit pattern.
use vstd::prelude::*;
use vstd::string::*;

use crate::text;

verus! {

broadcast use vstd::seq_lib::group_seq_properties;

pub const RATE_CARD_PAGE: &'static str = "https://help.openai.com/en/articles/20001106-codex-rate-card";

pub const CREDIT_VALUE_PAGE: &'static str = "https://help.openai.com/en/articles/20001147-codex-credits-for-students-terms-of-service";

/// The rank of negative zero, which compares equal to zero.
pub const NEGATIVE_ZERO: i64 = -1;

/// 0.04
pub const DEFAULT_USD_PER_CREDIT: i64 = 0x3FA47AE147AE147B;

/// 1.0
pub const ONE: i64 = 0x3FF0000000000000;

/// 10 000.0
pub const HIGHEST_RATE: i64 = 0x40C3880000000000;

/// What one model costs, in credits per million tokens.
#[derive(Debug, PartialEq, Eq)]
pub struct CodexModelRate {
    pub model: String,
    pub input_credits_per_million: i64,
    pub cached_input_credits_per_million: i64,
    pub output_credits_per_million: i64,
}

/// What a `CodexModelRate` holds.
#[verifier::ext_equal]
pub struct ModelRateView {
    pub model: Seq<char>,
    pub input_credits_per_million: i64,
    pub cached_input_credits_per_million: i64,
    pub output_credits_per_million: i64,
}

impl View for CodexModelRate {
    type V = ModelRateView;

    open spec fn view(&self) -> ModelRateView {
        ModelRateView {
            model: self.model@,
            input_credits_per_million: self.input_credits_per_million,
            cached_input_credits_per_million: self.cached_input_credits_per_million,
            output_credits_per_million: self.output_credits_per_million,
        }
    }
}

pub open spec fn rate_views(rates: Seq<CodexModelRate>) -> Seq<ModelRateView> {
    rates.map_values(|rate: CodexModelRate| rate@)
}

/// What all models cost.
#[derive(Debug, PartialEq, Eq)]
pub struct CodexRateCard {
    pub source_url: String,
    pub fetched_at: String,
    pub source_updated_label: Option<String>,
    pub usd_per_credit: i64,
    pub credit_value_source_url: Option<String>,
    pub rates: Vec<CodexModelRate>,
}

/// What a `CodexRateCard` holds.
#[verifier::ext_equal]
pub struct RateCardView {
    pub source_url: Seq<char>,
    pub fetched_at: Seq<char>,
    pub source_updated_label: Option<Seq<char>>,
    pub usd_per_credit: i64,
    pub credit_value_source_url: Option<Seq<char>>,
    pub rates: Seq<ModelRateView>,
}

impl View for CodexRateCard {
    type V = RateCardView;

    open spec fn view(&self) -> RateCardView {
        RateCardView {
            source_url: self.source_url@,
            fetched_at: self.fetched_at@,
            source_updated_label: text::optional(self.source_updated_label),
            usd_per_credit: self.usd_per_credit,
            credit_value_source_url: text::optional(self.credit_value_source_url),
            rates: rate_views(self.rates@),
        }
    }
}

/// What is left of a page while its tags are dropped, and whether a tag is open at its end.
pub open spec fn untagged(s: Seq<char>) -> (Seq<char>, bool)
    decreases s.len(),
{
    if s.len() == 0 {
        (Seq::empty(), false)
    } else {
        let (out, open) = untagged(s.drop_last());
        if s.last() == '<' {
            (out, true)
        } else if s.last() == '>' {
            (out, false)
        } else if open {
            (out, true)
        } else {
            (out.push(s.last()), false)
        }
    }
}

/// The words of a page, on one line.
pub open spec fn plain_text(s: Seq<char>) -> Seq<char> {
    text::concat_with(
        text::word_list(
            text::replaced(text::replaced(untagged(s).0, "&amp;"@, "&"@), "&nbsp;"@, " "@),
        ),
        " "@,
    )
}

/// Drops the tags of a page.
pub fn strip_tags(value: &str) -> (result: String)
    ensures
        result@ == plain_text(value@),
{
    let chars = text::chars_of(value);
    let mut output: String = String::new();
    let mut open: bool = false;
    let mut i: usize = 0;
    assert(output@ =~= untagged(value@.take(0)).0);
    while i < chars.len()
        invariant
            i <= chars.len(),
            chars@ == value@,
            (output@, open) == untagged(value@.take(i as int)),
        decreases chars.len() - i,
    {
        let c = chars[i];
        assert(value@.take(i + 1).drop_last() =~= value@.take(i as int));
        assert(value@.take(i + 1).last() == c);
        if c == '<' {
            open = true;
        } else if c == '>' {
            open = false;
        } else if !open {
            output.push(c);
        }
        i += 1;
    }
    assert(value@.take(chars.len() as int) =~= value@);
    proof {
        reveal_strlit("&amp;");
        reveal_strlit("&nbsp;");
    }
    let a = text::replace(output.as_str(), "&amp;", "&");
    let b = text::replace(a.as_str(), "&nbsp;", " ");
    let words = text::words(b.as_str());
    text::join(&words, " ")
}

/// The parts of a text between copies of a separator.
pub open spec fn parts(s: Seq<char>, separator: Seq<char>) -> Seq<Seq<char>>
    decreases s.len(),
{
    if separator.len() > 0 && text::occurs(s, separator) {
        let at = text::first_at(s, separator);
        if 0 <= at && at + separator.len() <= s.len() {
            seq![s.take(at)] + parts(s.skip(at + separator.len()), separator)
        } else {
            seq![s]
        }
    } else {
        seq![s]
    }
}

fn split_parts(value: &str, separator: &str) -> (result: Vec<String>)
    requires
        separator@.len() > 0,
    ensures
        text::texts(result@) == parts(value@, separator@),
{
    let mut result: Vec<String> = Vec::new();
    let mut rest: String = value.to_owned();
    let mut more: bool = true;
    assert(text::texts(result@) + parts(rest@, separator@) =~= parts(value@, separator@));
    while more
        invariant
            separator@.len() > 0,
            text::texts(result@) + (if more {
                parts(rest@, separator@)
            } else {
                Seq::empty()
            }) == parts(value@, separator@),
        decreases rest@.len(), more as int,
    {
        let ghost done = text::texts(result@);
        match text::split_once(rest.as_str(), separator) {
            Some((before, after)) => {
                let ghost head = before@;
                let ghost tail = parts(after@, separator@);
                result.push(before);
                assert(text::texts(result@) =~= done.push(head));
                assert(done + (seq![head] + tail) =~= done.push(head) + tail);
                rest = after;
            },
            None => {
                let ghost head = rest@;
                result.push(rest);
                assert(text::texts(result@) =~= done.push(head));
                assert(done + seq![head] =~= done.push(head));
                rest = String::new();
                more = false;
            },
        }
    }
    assert(text::texts(result@) =~= parts(value@, separator@));
    result
}

/// The text of a table cell, where it is whole.
pub open spec fn cell_text(cell: Seq<char>) -> Option<Seq<char>> {
    if text::occurs(cell, ">"@) {
        let body = cell.skip(text::first_at(cell, ">"@) + ">"@.len());
        if text::occurs(body, "</td>"@) {
            Some(plain_text(body.take(text::first_at(body, "</td>"@))))
        } else {
            None
        }
    } else {
        None
    }
}

fn read_cell(cell: &str) -> (result: Option<String>)
    ensures
        text::optional(result) == cell_text(cell@),
{
    match text::split_once(cell, ">") {
        Some((_, body)) => match text::split_once(body.as_str(), "</td>") {
            Some((content, _)) => Some(strip_tags(content.as_str())),
            None => None,
        },
        None => None,
    }
}

/// The cells of a table row.
pub open spec fn cells(row: Seq<char>) -> Seq<Seq<char>> {
    parts(row, "<td"@).drop_first().filter_map(|cell: Seq<char>| cell_text(cell))
}

proof fn lemma_parts_not_empty(s: Seq<char>, separator: Seq<char>)
    ensures
        parts(s, separator).len() > 0,
{
}

/// Reads the cells of a table row.
pub fn html_cells(row: &str) -> (result: Vec<String>)
    ensures
        text::texts(result@) == cells(row@),
{
    proof {
        reveal_strlit("<td");
        lemma_parts_not_empty(row@, "<td"@);
    }
    let list = split_parts(row, "<td");
    let ghost all = text::texts(list@);
    let ghost rest = all.drop_first();
    let ghost pick = |cell: Seq<char>| cell_text(cell);
    let mut result: Vec<String> = Vec::new();
    let mut i: usize = 1;
    assert(rest.take(0) =~= Seq::empty());
    assert(text::texts(result@) =~= rest.take(0).filter_map(pick));
    while i < list.len()
        invariant
            1 <= i <= list.len(),
            all == text::texts(list@),
            rest == all.drop_first(),
            pick == (|cell: Seq<char>| cell_text(cell)),
            text::texts(result@) == rest.take(i - 1).filter_map(pick),
        decreases list.len() - i,
    {
        let ghost done = text::texts(result@);
        assert(rest[i - 1] == list@[i as int]@);
        proof {
            rest.lemma_filter_map_take_succ(pick, i - 1);
        }
        match read_cell(list[i].as_str()) {
            Some(content) => {
                let ghost view = content@;
                result.push(content);
                assert(text::texts(result@) =~= done + seq![view]);
            },
            None => {},
        }
        i += 1;
    }
    assert(rest.take(list.len() - 1) =~= rest);
    result
}

/// Where a page says when it was last changed.
pub open spec fn updated_label(page: Seq<char>) -> Option<Seq<char>> {
    if text::occurs(page, "Updated:"@) {
        let behind = page.skip(text::first_at(page, "Updated:"@) + "Updated:"@.len());
        if text::occurs(behind, "<"@) {
            let label = plain_text(behind.take(text::first_at(behind, "<"@)));
            if label.len() == 0 {
                None
            } else {
                Some(label)
            }
        } else {
            None
        }
    } else {
        None
    }
}

/// Reads when a page was last changed.
pub fn source_updated_label(page: &str) -> (result: Option<String>)
    ensures
        text::optional(result) == updated_label(page@),
{
    match text::split_once(page, "Updated:") {
        Some((_, behind)) => match text::split_once(behind.as_str(), "<") {
            Some((content, _)) => {
                let label = strip_tags(content.as_str());
                if label.as_str().is_empty() {
                    None
                } else {
                    Some(label)
                }
            },
            None => None,
        },
        None => None,
    }
}

/// A letter or digit of the Latin alphabet.
pub open spec fn latin(c: char) -> bool {
    ('a' <= c && c <= 'z') || ('A' <= c && c <= 'Z') || ('0' <= c && c <= '9')
}

/// The letters and digits of a model's name, in lower case.
pub open spec fn model_key(value: Seq<char>) -> Seq<char> {
    text::ascii_lower(value.filter(|c: char| latin(c)))
}

/// Makes names of one model comparable.
pub fn normalize_model(value: &str) -> (result: String)
    ensures
        result@ == model_key(value@),
{
    let chars = text::chars_of(value);
    let ghost keep = |c: char| latin(c);
    let mut kept: String = String::new();
    let mut i: usize = 0;
    assert(value@.take(0).filter(keep) =~= Seq::empty()) by {
        reveal(Seq::filter);
    }
    while i < chars.len()
        invariant
            i <= chars.len(),
            chars@ == value@,
            keep == (|c: char| latin(c)),
            kept@ == value@.take(i as int).filter(keep),
        decreases chars.len() - i,
    {
        let c = chars[i];
        assert(value@.take(i + 1) =~= value@.take(i as int).push(c));
        proof {
            value@.take(i as int).lemma_filter_push(c, keep);
        }
        if ('a' <= c && c <= 'z') || ('A' <= c && c <= 'Z') || ('0' <= c && c <= '9') {
            kept.push(c);
        }
        i += 1;
    }
    assert(value@.take(chars.len() as int) =~= value@);
    text::to_ascii_lower(kept.as_str())
}

/// A row of the rate table, its numbers still as text.
#[derive(Debug, PartialEq, Eq)]
pub struct RateTexts {
    pub model: String,
    pub input: String,
    pub cached: String,
    pub output: String,
}

/// What `RateTexts` holds.
#[verifier::ext_equal]
pub struct RateTextsView {
    pub model: Seq<char>,
    pub input: Seq<char>,
    pub cached: Seq<char>,
    pub output: Seq<char>,
}

impl View for RateTexts {
    type V = RateTextsView;

    open spec fn view(&self) -> RateTextsView {
        RateTextsView {
            model: self.model@,
            input: self.input@,
            cached: self.cached@,
            output: self.output@,
        }
    }
}

pub open spec fn row_views(rows: Seq<RateTexts>) -> Seq<RateTextsView> {
    rows.map_values(|row: RateTexts| row@)
}

/// Why a rate table cannot be used.
#[derive(Clone, Copy, Debug, PartialEq, Eq, Structural)]
pub enum RateError {
    NoMarker,
    NoTable,
    BrokenTable,
    Incomplete,
}

/// The number that a cell begins with, without thousands separators.
pub open spec fn number_part(cell: Seq<char>) -> Option<Seq<char>> {
    let words = text::word_list(cell);
    if words.len() == 0 {
        None
    } else {
        Some(text::replaced(words[0], ","@, ""@))
    }
}

fn read_number_part(cell: &str) -> (result: Option<String>)
    ensures
        text::optional(result) == number_part(cell@),
{
    let words = text::words(cell);
    let ghost list = text::texts(words@);
    if words.len() == 0 {
        None
    } else {
        proof {
            reveal_strlit(",");
            assert(list[0] == words@[0]@);
        }
        Some(text::replace(words[0].as_str(), ",", ""))
    }
}

/// The row as rates, where it is one of a model.
pub open spec fn rate_row(row: Seq<char>) -> Option<RateTextsView> {
    let found = cells(row);
    if found.len() != 4 || !text::has_prefix(text::ascii_lower(found[0]), "gpt-"@) {
        None
    } else {
        match (number_part(found[1]), number_part(found[2]), number_part(found[3])) {
            (Some(input), Some(cached), Some(output)) => Some(
                RateTextsView { model: text::prefix_of(found[0], 80), input, cached, output },
            ),
            _ => None,
        }
    }
}

fn read_rate_row(row: &str) -> (result: Option<RateTexts>)
    ensures
        match result {
            Some(found) => rate_row(row@) == Some(found@),
            None => rate_row(row@) is None,
        },
{
    let found = html_cells(row);
    let ghost list = text::texts(found@);
    if found.len() != 4 {
        return None;
    }
    assert(forall|k: int| 0 <= k < 4 ==> #[trigger] list[k] == found@[k]@);
    let lowered = text::to_ascii_lower(found[0].as_str());
    if !text::starts_with(lowered.as_str(), "gpt-") {
        return None;
    }
    match (
        read_number_part(found[1].as_str()),
        read_number_part(found[2].as_str()),
        read_number_part(found[3].as_str()),
    ) {
        (Some(input), Some(cached), Some(output)) => Some(
            RateTexts {
                model: text::take_chars(found[0].as_str(), 80),
                input,
                cached,
                output,
            },
        ),
        _ => None,
    }
}

/// The rate table of a page.
pub open spec fn table_of(page: Seq<char>) -> Result<Seq<char>, RateError> {
    let marker = "Codex rate card - token-based pricing"@;
    if !text::occurs(page, marker) {
        Err(RateError::NoMarker)
    } else {
        let behind = page.skip(text::first_at(page, marker));
        if !text::occurs(behind, "<table"@) {
            Err(RateError::NoTable)
        } else {
            let table = behind.skip(text::first_at(behind, "<table"@));
            if !text::occurs(table, "</table>"@) {
                Err(RateError::BrokenTable)
            } else {
                Ok(table.take(text::first_at(table, "</table>"@)))
            }
        }
    }
}

/// The rows of the rate table that are about models.
pub open spec fn rate_rows(table: Seq<char>) -> Seq<RateTextsView> {
    parts(table, "<tr"@).filter_map(|row: Seq<char>| rate_row(row))
}

fn cut_from(value: &str, mark: &str) -> (result: Option<String>)
    ensures
        match result {
            Some(rest) => text::occurs(value@, mark@) && rest@ == value@.skip(
                text::first_at(value@, mark@),
            ),
            None => !text::occurs(value@, mark@),
        },
{
    match text::split_once(value, mark) {
        Some((_, after)) => {
            proof {
                let at = text::first_at(value@, mark@);
                assert(value@.skip(at) =~= mark@ + value@.skip(at + mark@.len()));
            }
            Some(text::joined(mark, after.as_str()))
        },
        None => None,
    }
}

fn find_table(page: &str) -> (result: Result<String, RateError>)
    ensures
        match result {
            Ok(table) => table_of(page@) == Ok::<Seq<char>, RateError>(table@),
            Err(error) => table_of(page@) == Err::<Seq<char>, RateError>(error),
        },
{
    let behind = match cut_from(page, "Codex rate card - token-based pricing") {
        Some(behind) => behind,
        None => {
            return Err(RateError::NoMarker);
        },
    };
    let table = match cut_from(behind.as_str(), "<table") {
        Some(table) => table,
        None => {
            return Err(RateError::NoTable);
        },
    };
    match text::split_once(table.as_str(), "</table>") {
        Some((body, _)) => Ok(body),
        None => Err(RateError::BrokenTable),
    }
}

/// Finds the rates of a page, their numbers still as text.
pub fn find_rates(page: &str) -> (result: Result<Vec<RateTexts>, RateError>)
    ensures
        match result {
            Ok(rows) => table_of(page@) is Ok && row_views(rows@) == rate_rows(
                table_of(page@)->Ok_0,
            ),
            Err(error) => table_of(page@) == Err::<Seq<char>, RateError>(error),
        },
{
    let table = match find_table(page) {
        Ok(table) => table,
        Err(error) => {
            return Err(error);
        },
    };
    proof {
        reveal_strlit("<tr");
    }
    let list = split_parts(table.as_str(), "<tr");
    let ghost all = text::texts(list@);
    let ghost pick = |row: Seq<char>| rate_row(row);
    let mut rows: Vec<RateTexts> = Vec::new();
    let mut i: usize = 0;
    assert(all.take(0) =~= Seq::empty());
    assert(row_views(rows@) =~= all.take(0).filter_map(pick));
    while i < list.len()
        invariant
            i <= list.len(),
            all == text::texts(list@),
            pick == (|row: Seq<char>| rate_row(row)),
            row_views(rows@) == all.take(i as int).filter_map(pick),
        decreases list.len() - i,
    {
        let ghost done = row_views(rows@);
        assert(all[i as int] == list@[i as int]@);
        proof {
            all.lemma_filter_map_take_succ(pick, i as int);
        }
        match read_rate_row(list[i].as_str()) {
            Some(row) => {
                let ghost view = row@;
                rows.push(row);
                assert(row_views(rows@) =~= done + seq![view]);
            },
            None => {},
        }
        i += 1;
    }
    assert(all.take(list.len() as int) =~= all);
    Ok(rows)
}

/// The numbers of a row, where all of them could be read.
#[derive(Clone, Copy, Debug, PartialEq, Eq, Structural)]
pub struct RateNumbers {
    pub input: i64,
    pub cached: i64,
    pub output: i64,
}

/// A rate that a model can have.
pub open spec fn plausible(rate: i64) -> bool {
    NEGATIVE_ZERO <= rate <= HIGHEST_RATE
}

/// The row with its numbers, where they can be rates.
pub open spec fn model_rate(row: RateTextsView, numbers: Option<RateNumbers>) -> Option<
    ModelRateView,
> {
    match numbers {
        Some(found) => if plausible(found.input) && plausible(found.cached) && plausible(
            found.output,
        ) {
            Some(
                ModelRateView {
                    model: row.model,
                    input_credits_per_million: found.input,
                    cached_input_credits_per_million: found.cached,
                    output_credits_per_million: found.output,
                },
            )
        } else {
            None
        },
        None => None,
    }
}

/// The rates of the first `n` rows.
pub open spec fn model_rates(
    rows: Seq<RateTextsView>,
    numbers: Seq<Option<RateNumbers>>,
    n: nat,
) -> Seq<ModelRateView>
    decreases n,
{
    if n == 0 {
        Seq::empty()
    } else {
        let before = model_rates(rows, numbers, (n - 1) as nat);
        match model_rate(rows[n - 1], numbers[n - 1]) {
            Some(rate) => before.push(rate),
            None => before,
        }
    }
}

/// The rates are at least three, with one for the model that is used by default.
pub open spec fn enough_rates(rates: Seq<ModelRateView>) -> bool {
    rates.len() >= 3 && exists|i: int|
        0 <= i < rates.len() && model_key((#[trigger] rates[i]).model) == "gpt56luna"@
}

fn has_enough_rates(rates: &Vec<CodexModelRate>) -> (result: bool)
    ensures
        result == enough_rates(rate_views(rates@)),
{
    if rates.len() < 3 {
        return false;
    }
    let ghost views = rate_views(rates@);
    let mut i: usize = 0;
    while i < rates.len()
        invariant
            i <= rates.len(),
            rates.len() >= 3,
            views == rate_views(rates@),
            forall|k: int|
                0 <= k < i ==> model_key((#[trigger] views[k]).model) != "gpt56luna"@,
        decreases rates.len() - i,
    {
        let key = normalize_model(rates[i].model.as_str());
        assert(views[i as int].model == rates@[i as int].model@);
        if text::same(key.as_str(), "gpt56luna") {
            assert(model_key(views[i as int].model) == "gpt56luna"@);
            return true;
        }
        i += 1;
    }
    false
}

/// The rate card of a page, whose table has these rows.
pub open spec fn rate_card(
    page: Seq<char>,
    rows: Seq<RateTextsView>,
    numbers: Seq<Option<RateNumbers>>,
    now: Seq<char>,
) -> Result<RateCardView, RateError> {
    let rates = model_rates(rows, numbers, rows.len());
    if enough_rates(rates) {
        Ok(
            RateCardView {
                source_url: RATE_CARD_PAGE@,
                fetched_at: now,
                source_updated_label: updated_label(page),
                usd_per_credit: DEFAULT_USD_PER_CREDIT,
                credit_value_source_url: Some(CREDIT_VALUE_PAGE@),
                rates,
            },
        )
    } else {
        Err(RateError::Incomplete)
    }
}

/// What reading a rate page comes to, with the numbers of its rows.
pub open spec fn parsed_card(
    page: Seq<char>,
    numbers: Seq<Option<RateNumbers>>,
    now: Seq<char>,
) -> Result<RateCardView, RateError> {
    match table_of(page) {
        Ok(table) => rate_card(page, rate_rows(table), numbers, now),
        Err(error) => Err(error),
    }
}

fn collect_rates(rows: Vec<RateTexts>, numbers: &Vec<Option<RateNumbers>>) -> (result: Vec<
    CodexModelRate,
>)
    requires
        numbers.len() == rows.len(),
    ensures
        rate_views(result@) == model_rates(row_views(rows@), numbers@, rows@.len()),
{
    let ghost views = row_views(rows@);
    let mut rates: Vec<CodexModelRate> = Vec::new();
    let mut i: usize = 0;
    assert(rate_views(rates@) =~= model_rates(views, numbers@, 0));
    while i < rows.len()
        invariant
            i <= rows.len(),
            numbers.len() == rows.len(),
            views == row_views(rows@),
            rate_views(rates@) == model_rates(views, numbers@, i as nat),
        decreases rows.len() - i,
    {
        let ghost done = rate_views(rates@);
        assert(views[i as int] == rows@[i as int]@);
        match numbers[i] {
            Some(found) => {
                if NEGATIVE_ZERO <= found.input && found.input <= HIGHEST_RATE && NEGATIVE_ZERO
                    <= found.cached && found.cached <= HIGHEST_RATE && NEGATIVE_ZERO
                    <= found.output && found.output <= HIGHEST_RATE {
                    let rate = CodexModelRate {
                        model: rows[i].model.clone(),
                        input_credits_per_million: found.input,
                        cached_input_credits_per_million: found.cached,
                        output_credits_per_million: found.output,
                    };
                    let ghost view = rate@;
                    rates.push(rate);
                    assert(rate_views(rates@) =~= done.push(view));
                }
            },
            None => {},
        }
        i += 1;
    }
    rates
}

/// Makes a rate card of a page and the numbers of its rows, one for each that `find_rates` finds.
pub fn parse_rate_card(page: &str, numbers: &Vec<Option<RateNumbers>>, now: &str) -> (result:
    Result<CodexRateCard, RateError>)
    requires
        table_of(page@) matches Ok(table) ==> numbers.len() == rate_rows(table).len(),
    ensures
        match result {
            Ok(card) => parsed_card(page@, numbers@, now@) == Ok::<RateCardView, RateError>(card@),
            Err(error) => parsed_card(page@, numbers@, now@) == Err::<RateCardView, RateError>(
                error,
            ),
        },
{
    let rows = match find_rates(page) {
        Ok(rows) => rows,
        Err(error) => {
            return Err(error);
        },
    };
    assert(rows@.len() == row_views(rows@).len());
    let rates = collect_rates(rows, numbers);
    if !has_enough_rates(&rates) {
        return Err(RateError::Incomplete);
    }
    Ok(
        CodexRateCard {
            source_url: RATE_CARD_PAGE.to_owned(),
            fetched_at: now.to_owned(),
            source_updated_label: source_updated_label(page),
            usd_per_credit: DEFAULT_USD_PER_CREDIT,
            credit_value_source_url: Some(CREDIT_VALUE_PAGE.to_owned()),
            rates,
        },
    )
}

/// A value between nothing and one dollar.
pub open spec fn sensible_value(value: i64) -> bool {
    0 < value <= ONE
}

/// Whether a stored rate card can be used.
pub fn valid_rate_card(card: &CodexRateCard) -> (result: bool)
    ensures
        result == (sensible_value(card.usd_per_credit) && enough_rates(card@.rates)),
{
    0 < card.usd_per_credit && card.usd_per_credit <= ONE && has_enough_rates(&card.rates)
}

/// The texts between which a page gives what credits are worth.
pub open spec fn credit_texts(page: Seq<char>) -> Option<(Seq<char>, Seq<char>)> {
    let plain = plain_text(page);
    let marker = "credits, which is equivalent to $"@;
    if text::occurs(plain, marker) {
        let at = text::first_at(plain, marker);
        let before = text::word_list(plain.take(at));
        let behind = text::word_list(plain.skip(at + marker.len()));
        if before.len() == 0 || behind.len() == 0 {
            None
        } else {
            Some(
                (
                    text::replaced(number_core(before.last(), true), ","@, ""@),
                    number_core(behind[0], false),
                ),
            )
        }
    } else {
        None
    }
}

/// A character of a number.
pub open spec fn number_char(c: char, comma: bool) -> bool {
    ('0' <= c && c <= '9') || c == '.' || (comma && c == ',')
}

/// The word from its first to its last character of a number.
pub open spec fn number_core(word: Seq<char>, comma: bool) -> Seq<char> {
    text::drop_tail_while(
        text::skip_while(word, |c: char| !number_char(c, comma)),
        |c: char| !number_char(c, comma),
    )
}

fn is_number_char(c: char, comma: bool) -> (result: bool)
    ensures
        result == number_char(c, comma),
{
    ('0' <= c && c <= '9') || c == '.' || (comma && c == ',')
}

fn cut_number(word: &str, comma: bool) -> (result: String)
    ensures
        result@ == number_core(word@, comma),
{
    let chars = text::chars_of(word);
    let ghost other = |c: char| !number_char(c, comma);
    let mut from: usize = 0;
    assert(chars@.skip(0) =~= chars@);
    while from < chars.len() && !is_number_char(chars[from], comma)
        invariant
            from <= chars.len(),
            other == (|c: char| !number_char(c, comma)),
            text::skip_while(chars@, other) == text::skip_while(chars@.skip(from as int), other),
        decreases chars.len() - from,
    {
        assert(chars@.skip(from as int).drop_first() =~= chars@.skip(from + 1));
        assert(chars@.skip(from as int)[0] == chars@[from as int]);
        from += 1;
    }
    if from < chars.len() {
        assert(chars@.skip(from as int)[0] == chars@[from as int]);
    }
    let ghost rest = chars@.skip(from as int);
    assert(text::skip_while(chars@, other) == rest);
    let mut to: usize = chars.len();
    assert(chars@.subrange(from as int, to as int) =~= rest);
    while to > from && !is_number_char(chars[to - 1], comma)
        invariant
            from <= to <= chars.len(),
            other == (|c: char| !number_char(c, comma)),
            text::drop_tail_while(rest, other) == text::drop_tail_while(
                chars@.subrange(from as int, to as int),
                other,
            ),
        decreases to - from,
    {
        let ghost now = chars@.subrange(from as int, to as int);
        assert(now.last() == chars@[to - 1]);
        assert(now.drop_last() =~= chars@.subrange(from as int, to - 1));
        to -= 1;
    }
    if to > from {
        assert(chars@.subrange(from as int, to as int).last() == chars@[to - 1]);
    }
    text::string_of(&chars, from, to)
}

/// Finds how many credits a page says are worth how many dollars, still as text.
pub fn find_credit_value(page: &str) -> (result: Option<(String, String)>)
    ensures
        match result {
            Some((credits, dollars)) => credit_texts(page@) == Some((credits@, dollars@)),
            None => credit_texts(page@) is None,
        },
{
    let plain = strip_tags(page);
    match text::split_once(plain.as_str(), "credits, which is equivalent to $") {
        Some((before, behind)) => {
            let left = text::words(before.as_str());
            let right = text::words(behind.as_str());
            let ghost a = text::texts(left@);
            let ghost b = text::texts(right@);
            if left.len() == 0 || right.len() == 0 {
                return None;
            }
            assert(a.last() == left@[left.len() - 1]@);
            assert(b[0] == right@[0]@);
            let credits = cut_number(left[left.len() - 1].as_str(), true);
            proof {
                reveal_strlit(",");
            }
            Some(
                (
                    text::replace(credits.as_str(), ",", ""),
                    cut_number(right[0].as_str(), false),
                ),
            )
        },
        None => None,
    }
}

/// Whether what a credit is worth can be true, given how many credits it was computed from.
pub fn accept_credit_value(credits: i64, value: i64) -> (result: bool)
    ensures
        result == (credits > 0 && sensible_value(value)),
{
    credits > 0 && 0 < value && value <= ONE
}

/// The rate card with what a credit is worth.
pub fn with_credit_value(card: CodexRateCard, value: i64) -> (result: CodexRateCard)
    ensures
        result@ == (RateCardView {
            usd_per_credit: value,
            credit_value_source_url: Some(CREDIT_VALUE_PAGE@),
            ..card@
        }),
{
    let mut result = card;
    result.usd_per_credit = value;
    result.credit_value_source_url = Some(CREDIT_VALUE_PAGE.to_owned());
    result
}

/// The first rate for a model.
pub open spec fn rate_for(rates: Seq<ModelRateView>, key: Seq<char>) -> Option<ModelRateView>
    decreases rates.len(),
{
    if rates.len() == 0 {
        None
    } else if model_key(rates[0].model) == key {
        Some(rates[0])
    } else {
        rate_for(rates.drop_first(), key)
    }
}

/// Finds the rate for a model.
pub fn find_rate<'a>(card: &'a CodexRateCard, model: &str) -> (result: Option<&'a CodexModelRate>)
    ensures
        match result {
            Some(rate) => rate_for(card@.rates, model_key(model@)) == Some(rate@),
            None => rate_for(card@.rates, model_key(model@)) is None,
        },
{
    let wanted = normalize_model(model);
    let ghost views = rate_views(card.rates@);
    let mut i: usize = 0;
    assert(views.skip(0) =~= views);
    while i < card.rates.len()
        invariant
            i <= card.rates.len(),
            views == rate_views(card.rates@),
            wanted@ == model_key(model@),
            rate_for(views, wanted@) == rate_for(views.skip(i as int), wanted@),
        decreases card.rates.len() - i,
    {
        assert(views.skip(i as int)[0] == card.rates@[i as int]@);
        let key = normalize_model(card.rates[i].model.as_str());
        if text::same(key.as_str(), wanted.as_str()) {
            return Some(&card.rates[i]);
        }
        assert(views.skip(i as int).drop_first() =~= views.skip(i + 1));
        i += 1;
    }
    None
}

/// How many input tokens are charged in full, and how many as cached.
pub fn charged_tokens(input_tokens: u64, cached_input_tokens: u64) -> (result: (u64, u64))
    ensures
        result.0 + result.1 == input_tokens,
        result.1 == if cached_input_tokens < input_tokens {
            cached_input_tokens
        } else {
            input_tokens
        },
{
    let cached: u64 = if cached_input_tokens < input_tokens {
        cached_input_tokens
    } else {
        input_tokens
    };
    (input_tokens - cached, cached)
}

fn bundled_rate(model: &str, input: i64, cached: i64, output: i64) -> (result: CodexModelRate)
    ensures
        result@ == (ModelRateView {
            model: model@,
            input_credits_per_million: input,
            cached_input_credits_per_million: cached,
            output_credits_per_million: output,
        }),
{
    CodexModelRate {
        model: model.to_owned(),
        input_credits_per_million: input,
        cached_input_credits_per_million: cached,
        output_credits_per_million: output,
    }
}

pub open spec fn listed_rate(model: Seq<char>, input: i64, cached: i64, output: i64) ->
    ModelRateView {
    ModelRateView {
        model,
        input_credits_per_million: input,
        cached_input_credits_per_million: cached,
        output_credits_per_million: output,
    }
}

/// The rates that are known without asking.
pub open spec fn bundled_rates() -> Seq<ModelRateView> {
    seq![
        listed_rate("GPT-5.6 Sol"@, 0x405F400000000000, 0x4029000000000000, 0x4087700000000000),
        listed_rate("GPT-5.6 Terra"@, 0x404F400000000000, 0x4019000000000000, 0x4077700000000000),
        listed_rate("GPT-5.6 Luna"@, 0x4039000000000000, 0x4004000000000000, 0x4062C00000000000),
        listed_rate("GPT-5.5"@, 0x405F400000000000, 0x4029000000000000, 0x4087700000000000),
        listed_rate("GPT-5.5 Cyber"@, 0x407F400000000000, 0x4049000000000000, 0x40A7700000000000),
        listed_rate("GPT-5.4"@, 0x404F400000000000, 0x4019000000000000, 0x4077700000000000),
        listed_rate("GPT-5.4-Mini"@, 0x4032C00000000000, 0x3FFE000000000000, 0x405C400000000000),
        listed_rate("GPT-5.3-Codex"@, 0x4045E00000000000, 0x4011800000000000, 0x4075E00000000000),
        listed_rate("GPT-5.2"@, 0x4045E00000000000, 0x4011800000000000, 0x4075E00000000000),
    ]
}

/// The rate card that is known without asking.
pub fn bundled_rate_card() -> (result: CodexRateCard)
    ensures
        result@ == (RateCardView {
            source_url: RATE_CARD_PAGE@,
            fetched_at: "2026-07-15T00:00:00Z"@,
            source_updated_label: Some("ScreenUse 内置官方费率快照"@),
            usd_per_credit: DEFAULT_USD_PER_CREDIT,
            credit_value_source_url: Some(CREDIT_VALUE_PAGE@),
            rates: bundled_rates(),
        }),
{
    let mut rates: Vec<CodexModelRate> = Vec::new();
    rates.push(
        bundled_rate("GPT-5.6 Sol", 0x405F400000000000, 0x4029000000000000, 0x4087700000000000),
    );
    rates.push(
        bundled_rate("GPT-5.6 Terra", 0x404F400000000000, 0x4019000000000000, 0x4077700000000000),
    );
    rates.push(
        bundled_rate("GPT-5.6 Luna", 0x4039000000000000, 0x4004000000000000, 0x4062C00000000000),
    );
    rates.push(
        bundled_rate("GPT-5.5", 0x405F400000000000, 0x4029000000000000, 0x4087700000000000),
    );
    rates.push(
        bundled_rate("GPT-5.5 Cyber", 0x407F400000000000, 0x4049000000000000, 0x40A7700000000000),
    );
    rates.push(
        bundled_rate("GPT-5.4", 0x404F400000000000, 0x4019000000000000, 0x4077700000000000),
    );
    rates.push(
        bundled_rate("GPT-5.4-Mini", 0x4032C00000000000, 0x3FFE000000000000, 0x405C400000000000),
    );
    rates.push(
        bundled_rate("GPT-5.3-Codex", 0x4045E00000000000, 0x4011800000000000, 0x4075E00000000000),
    );
    rates.push(
        bundled_rate("GPT-5.2", 0x4045E00000000000, 0x4011800000000000, 0x4075E00000000000),
    );
    assert(rate_views(rates@) =~= bundled_rates());
    CodexRateCard {
        source_url: RATE_CARD_PAGE.to_owned(),
        fetched_at: "2026-07-15T00:00:00Z".to_owned(),
        source_updated_label: Some("ScreenUse 内置官方费率快照".to_owned()),
        usd_per_credit: DEFAULT_USD_PER_CREDIT,
        credit_value_source_url: Some(CREDIT_VALUE_PAGE.to_owned()),
        rates,
    }
}

/// A rate card that was read from a page can be used: nothing that is refused is stored.
pub proof fn read_rate_cards_are_valid(
    page: Seq<char>,
    numbers: Seq<Option<RateNumbers>>,
    now: Seq<char>,
)
    requires
        parsed_card(page, numbers, now) is Ok,
    ensures
        ({
            let card = parsed_card(page, numbers, now)->Ok_0;
            &&& sensible_value(card.usd_per_credit)
            &&& enough_rates(card.rates)
            &&& forall|k: int|
                0 <= k < card.rates.len() ==> plausible(
                    (#[trigger] card.rates[k]).input_credits_per_million,
                ) && plausible(card.rates[k].cached_input_credits_per_million) && plausible(
                    card.rates[k].output_credits_per_million,
                )
        }),
{
    let rows = rate_rows(table_of(page)->Ok_0);
    lemma_rates_plausible(rows, numbers, rows.len());
}

proof fn lemma_rates_plausible(
    rows: Seq<RateTextsView>,
    numbers: Seq<Option<RateNumbers>>,
    n: nat,
)
    ensures
        forall|k: int|
            0 <= k < model_rates(rows, numbers, n).len() ==> plausible(
                (#[trigger] model_rates(rows, numbers, n)[k]).input_credits_per_million,
            ) && plausible(model_rates(rows, numbers, n)[k].cached_input_credits_per_million)
                && plausible(model_rates(rows, numbers, n)[k].output_credits_per_million),
    decreases n,
{
    if n > 0 {
        lemma_rates_plausible(rows, numbers, (n - 1) as nat);
        let before = model_rates(rows, numbers, (n - 1) as nat);
        let all = model_rates(rows, numbers, n);
        assert forall|k: int| 0 <= k < all.len() implies plausible(
            (#[trigger] all[k]).input_credits_per_million,
        ) && plausible(all[k].cached_input_credits_per_million) && plausible(
            all[k].output_credits_per_million,
        ) by {
            if k < before.len() {
                assert(all[k] == before[k]);
            }
        }
    }
}

} // verus!
