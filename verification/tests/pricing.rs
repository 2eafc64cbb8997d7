use screenuse::pricing::{
    accept_credit_value, bundled_rate_card, charged_tokens, find_credit_value,
    find_rate, find_rates, html_cells, normalize_model, parse_rate_card, source_updated_label, strip_tags,
    valid_rate_card, with_credit_value, CodexRateCard, RateError, RateNumbers, RateTexts,
    HIGHEST_RATE, ONE,
};

fn order(value: f64) -> i64 {
    let bits = value.to_bits() as i64;
    bits ^ (((bits >> 63) as u64) >> 1) as i64
}

fn value(order: i64) -> f64 {
    f64::from_bits((order ^ (((order >> 63) as u64) >> 1) as i64) as u64)
}

fn numbers(row: &RateTexts) -> Option<RateNumbers> {
    Some(RateNumbers {
        input: order(row.input.parse().ok()?),
        cached: order(row.cached.parse().ok()?),
        output: order(row.output.parse().ok()?),
    })
}

fn read_rate_card(page: &str) -> Result<CodexRateCard, RateError> {
    let read = match find_rates(page) {
        Ok(rows) => rows.iter().map(numbers).collect(),
        Err(_) => vec![],
    };
    parse_rate_card(page, &read, "2026-07-15T00:00:00Z")
}

fn parse_usd_per_credit(page: &str) -> Option<f64> {
    let (credits, dollars) = find_credit_value(page)?;
    let credits: f64 = credits.parse().ok()?;
    let dollars: f64 = dollars.parse().ok()?;
    if accept_credit_value(order(credits), order(dollars / credits)) {
        Some(dollars / credits)
    } else {
        None
    }
}

#[test]
fn parses_current_token_rate_table() {
    let page = r#"
          <div>Updated: 15 hours ago</div>
          <h1>Codex rate card - token-based pricing</h1>
          <table><tbody>
            <tr><td><span>GPT-5.6 Sol</span></td><td>125 credits</td><td>12.50 credits</td><td>750 credits</td></tr>
            <tr><td>GPT-5.6 Terra</td><td>62.50 credits</td><td>6.250 credits</td><td>375 credits</td></tr>
            <tr><td>GPT-5.6 Luna</td><td>25 credits</td><td>2.50 credits</td><td>150 credits</td></tr>
          </tbody></table>
        "#;
    let card = read_rate_card(page).expect("parse rate card");
    let luna = card
        .rates
        .iter()
        .find(|rate| rate.model == "GPT-5.6 Luna")
        .expect("luna rate");
    assert_eq!(value(luna.input_credits_per_million), 25.0);
    assert_eq!(value(luna.cached_input_credits_per_million), 2.5);
    assert_eq!(value(luna.output_credits_per_million), 150.0);
    assert_eq!(card.source_updated_label.as_deref(), Some("15 hours ago"));
    assert!(valid_rate_card(&card));
}

#[test]
fn parses_official_credit_dollar_equivalent() {
    let page = r#"
          <p>Once the offer is applied, you should see <strong>2,500 credits</strong>,
          which is <strong>equivalent to $100</strong>.</p>
        "#;
    assert_eq!(parse_usd_per_credit(page), Some(0.04));
}

#[test]
fn converts_luna_tokens_to_usd_equivalent() {
    let card = bundled_rate_card();
    let rate = find_rate(&card, "gpt-5.6-luna").expect("rate");
    let (uncached, cached) = charged_tokens(79_308, 0);
    let credits = (uncached as f64 * value(rate.input_credits_per_million)
        + cached as f64 * value(rate.cached_input_credits_per_million)
        + 2_354.0 * value(rate.output_credits_per_million))
        / 1_000_000.0;
    let usd = credits * value(card.usd_per_credit);
    assert!((credits - 2.3358).abs() < 0.000_001);
    assert!((usd - 0.093_432).abs() < 0.000_001);
}

#[test]
fn tables_that_cannot_be_used_say_why() {
    assert_eq!(read_rate_card("<p>nothing</p>"), Err(RateError::NoMarker));
    assert_eq!(
        read_rate_card("Codex rate card - token-based pricing"),
        Err(RateError::NoTable)
    );
    assert_eq!(
        read_rate_card("Codex rate card - token-based pricing <table><tr>"),
        Err(RateError::BrokenTable)
    );
    assert_eq!(
        read_rate_card("Codex rate card - token-based pricing <table></table>"),
        Err(RateError::Incomplete)
    );
}

#[test]
fn implausible_rates_are_dropped() {
    let page = "Codex rate card - token-based pricing <table>\
        <tr><td>GPT-5.6 Luna</td><td>1,000 credits</td><td>0</td><td>10000</td></tr>\
        <tr><td>GPT-5.5</td><td>-1</td><td>1</td><td>1</td></tr>\
        <tr><td>GPT-5.4</td><td>inf</td><td>1</td><td>1</td></tr>\
        <tr><td>GPT-5.3</td><td>10001</td><td>1</td><td>1</td></tr>\
        <tr><td>Other</td><td>1</td><td>1</td><td>1</td></tr>\
        <tr><td>gpt-a</td><td>1</td><td>1</td><td>1</td></tr>\
        <tr><td>gpt-b</td><td>1</td><td>1</td><td>1</td></tr></table>";
    let card = read_rate_card(page).expect("three are left");
    let names: Vec<&str> = card.rates.iter().map(|rate| rate.model.as_str()).collect();
    assert_eq!(names, vec!["GPT-5.6 Luna", "gpt-a", "gpt-b"]);
    assert_eq!(value(card.rates[0].input_credits_per_million), 1000.0);
    assert_eq!(card.rates[0].output_credits_per_million, HIGHEST_RATE);
}

#[test]
fn the_bundled_card_is_valid_and_complete() {
    let card = bundled_rate_card();
    assert!(valid_rate_card(&card));
    assert_eq!(card.rates.len(), 9);
    assert_eq!(value(card.usd_per_credit), 0.04);
    let cyber = find_rate(&card, "GPT 5.5 cyber").expect("cyber");
    assert_eq!(value(cyber.input_credits_per_million), 500.0);
    assert_eq!(value(cyber.cached_input_credits_per_million), 50.0);
    assert_eq!(value(cyber.output_credits_per_million), 3000.0);
    let mini = find_rate(&card, "gpt-5.4-mini").expect("mini");
    assert_eq!(value(mini.input_credits_per_million), 18.75);
    assert_eq!(value(mini.cached_input_credits_per_million), 1.875);
    assert_eq!(value(mini.output_credits_per_million), 113.0);
    let codex = find_rate(&card, "gpt-5.3-codex").expect("codex");
    assert_eq!(value(codex.cached_input_credits_per_million), 4.375);
    assert!(find_rate(&card, "gpt-4").is_none());
    let free = with_credit_value(bundled_rate_card(), 0);
    assert!(!valid_rate_card(&free));
    let dear = with_credit_value(bundled_rate_card(), ONE + 1);
    assert!(!valid_rate_card(&dear));
}

#[test]
fn pages_are_reduced_to_text() {
    assert_eq!(strip_tags("<b>a&amp;b</b>&nbsp; c\n d"), "a&b c d");
    assert_eq!(
        html_cells("<td class=x>1</td><td>2</td><td>open"),
        vec!["1".to_string(), "2".to_string()]
    );
    assert_eq!(source_updated_label("Updated: <b>x</b>"), None);
    assert_eq!(normalize_model("GPT-5.6 Luna"), "gpt56luna");
    assert_eq!(charged_tokens(10, 25), (0, 10));
    assert_eq!(charged_tokens(25, 10), (15, 10));
    assert!(find_credit_value("nothing").is_none());
}
