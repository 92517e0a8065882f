use ledger::date::Date;
use ledger::decimal::Dec;
use ledger::parser::{ParseError, State};
use ledger::quantity::Quantity;
use ledger::symbol::Symbol;
use ledger::xact::{one_or_many_checked, ParsedPosting, ParsedXact, Xact, XactDate};
use serde_json::Value;

/// A quantity written as `{"SYM": "NUM"}`.
fn quantity_of(v: &Value) -> Result<Quantity, String> {
    let o = v.as_object().ok_or("a quantity is an object")?;
    if o.len() != 1 {
        return Err("a quantity has exactly one commodity".to_string());
    }
    let (sym, num) = o.iter().next().unwrap();
    let num = num.as_str().ok_or("a quantity's number is a string")?;
    let q = Dec::parse(num).ok_or("bad number")?;
    Ok(Quantity {
        q,
        s: Symbol::new(sym),
    })
}

fn date_of(s: &str) -> Result<Date, String> {
    let parts: Vec<&str> = s.split('-').collect();
    if parts.len() != 3 {
        return Err("bad date".to_string());
    }
    let y = parts[0].parse::<i32>().map_err(|e| e.to_string())?;
    let m = parts[1].parse::<u32>().map_err(|e| e.to_string())?;
    let d = parts[2].parse::<u32>().map_err(|e| e.to_string())?;
    Date::from_ymd(y, m, d).ok_or("no such day".to_string())
}

fn posting_of(v: &Value) -> Result<ParsedPosting, String> {
    let o = v.as_object().ok_or("a posting is an object")?;
    let account = o
        .get("account")
        .and_then(Value::as_str)
        .ok_or("a posting has an account")?
        .to_string();
    let quantity = match o.get("quantity") {
        None | Some(Value::Null) => None,
        Some(q) => Some(quantity_of(q)?),
    };
    Ok(ParsedPosting {
        state: State::Unmarked,
        account,
        quantity,
        uprice: None,
        lot_uprice: None,
        lot_date: None,
        lot_note: String::new(),
        comment: String::new(),
        tags: Vec::new(),
        vtags: Vec::new(),
    })
}

fn xact_of(v: &Value) -> Result<ParsedXact, String> {
    let o = v.as_object().ok_or("a transaction is an object")?;
    let date = date_of(o.get("date").and_then(Value::as_str).ok_or("a transaction has a date")?)?;
    let state = match o.get("state").and_then(Value::as_str) {
        Some("cleared") => State::Cleared,
        Some("pending") => State::Pending,
        _ => State::Unmarked,
    };
    let payee = o
        .get("payee")
        .and_then(Value::as_str)
        .unwrap_or("")
        .to_string();
    let mut postings = Vec::new();
    for p in o
        .get("postings")
        .and_then(Value::as_array)
        .ok_or("a transaction has postings")?
    {
        postings.push(posting_of(p)?);
    }
    Ok(ParsedXact {
        state,
        code: String::new(),
        date: XactDate {
            txdate: date,
            efdate: None,
        },
        payee,
        comment: String::new(),
        tags: Vec::new(),
        vtags: Vec::new(),
        postings,
    })
}

/// One transaction object or a list of them.
fn parse_xacts_json(content: &str) -> Result<Vec<Xact>, ParseError> {
    let value = serde_json::from_str::<Value>(content).map_err(|e| e.to_string());
    let single = || value.clone().and_then(|v| xact_of(&v));
    let many = || {
        value.clone().and_then(|v| match v.as_array() {
            Some(items) => items.iter().map(xact_of).collect(),
            None => Err("not a list".to_string()),
        })
    };
    one_or_many_checked(single, many).unwrap()
}

/// The accounts and amounts of the postings, for comparing.
fn shape(xs: &[Xact]) -> Vec<(String, State, Vec<(String, Quantity)>)> {
    xs.iter()
        .map(|x| {
            (
                x.payee.clone(),
                x.state,
                x.postings
                    .iter()
                    .map(|p| (p.acc_name.as_str().to_string(), p.quantity.clone()))
                    .collect(),
            )
        })
        .collect()
}

#[test]
fn single_object_and_list_agree() {
    let obj = r#"{"date":"2012-03-01","state":"cleared","payee":"X",
            "postings":[{"account":"A","quantity":{"$":"1"}},{"account":"B"}]}"#;
    let list = format!("[{obj}]");
    let one = parse_xacts_json(obj).unwrap();
    let many = parse_xacts_json(&list).unwrap();
    assert_eq!(shape(&one), shape(&many));
    assert_eq!(one[0].date.txdate, many[0].date.txdate);
}

#[test]
fn elided_amount_inferred_like_tty() {
    let obj = r#"{"date":"2012-03-01","payee":"X",
            "postings":[{"account":"A","quantity":{"$":"1"}},{"account":"B"}]}"#;
    // What the journal text "2012-03-01 X\n    A  $1\n    B\n" reads as.
    let tty = ParsedXact {
        state: State::Unmarked,
        code: String::new(),
        date: XactDate {
            txdate: Date::from_ymd(2012, 3, 1).unwrap(),
            efdate: None,
        },
        payee: "X".to_string(),
        comment: String::new(),
        tags: Vec::new(),
        vtags: Vec::new(),
        postings: vec![
            posting_of(&serde_json::from_str(r#"{"account":"A","quantity":{"$":"1"}}"#).unwrap())
                .unwrap(),
            posting_of(&serde_json::from_str(r#"{"account":"B"}"#).unwrap()).unwrap(),
        ],
    }
    .into_xact()
    .unwrap();
    let json = parse_xacts_json(obj).unwrap();
    assert_eq!(shape(&json), shape(&[tty]));
    assert_eq!(
        json[0].postings[1].quantity,
        Quantity {
            q: Dec::parse("-1").unwrap(),
            s: Symbol::new("$")
        }
    );
}

#[test]
fn unbalanced_is_rejected() {
    let obj = r#"{"date":"2012-03-01","payee":"X",
            "postings":[{"account":"A","quantity":{"$":"1"}},{"account":"B","quantity":{"$":"2"}}]}"#;
    assert!(parse_xacts_json(obj).is_err());
}
