use goby_bot::mtg::csv::{is_blank, parse};

#[test]
fn splits_plain_records() {
    assert_eq!(
        parse("Name,Quantity\nSol Ring,2\n"),
        [["Name", "Quantity"], ["Sol Ring", "2"]]
    );
}

#[test]
fn keeps_commas_inside_quoted_fields() {
    assert_eq!(
        parse("\"Chandra, Torch of Defiance\",1\n"),
        [["Chandra, Torch of Defiance", "1"]]
    );
}

#[test]
fn reads_doubled_quotes_as_one_quote() {
    assert_eq!(parse("\"say \"\"hi\"\"\",1\n"), [["say \"hi\"", "1"]]);
}

#[test]
fn reads_line_endings_and_embedded_newlines() {
    assert_eq!(
        parse("a,b\r\n\"one\ntwo\",c\r\n"),
        [["a", "b"], ["one\ntwo", "c"]]
    );
}

#[test]
fn reads_a_last_line_without_line_ending() {
    assert_eq!(parse("a,b\nc,d"), [["a", "b"], ["c", "d"]]);
}

#[test]
fn reports_blank_records() {
    let records = parse("a,b\n\nc,d\n");

    assert_eq!(records.len(), 3);
    assert!(is_blank(&records[1]));
    assert!(!is_blank(&records[0]));
}

#[test]
fn keeps_quotes_that_do_not_open_a_field() {
    assert_eq!(parse("a\"b,c\n"), [["a\"b", "c"]]);
}

#[test]
fn reads_an_empty_document_as_no_record() {
    assert!(parse("").is_empty());
}

#[test]
fn reads_a_field_of_spaces_as_blank() {
    let records = parse(" ,\t\n");
    assert_eq!(records, [[" ", "\t"]]);
    assert!(is_blank(&records[0]));
}

#[test]
fn reads_back_what_quoting_writes() {
    let records = vec![
        vec!["Chandra, Torch of Defiance".to_owned(), "say \"hi\"".to_owned()],
        vec!["one\ntwo\r".to_owned()],
        vec!["".to_owned(), ",".to_owned(), "\"".to_owned()],
    ];
    let mut text = String::new();
    for record in &records {
        let fields: Vec<String> = record
            .iter()
            .map(|field| format!("\"{}\"", field.replace('"', "\"\"")))
            .collect();
        text.push_str(&fields.join(","));
        text.push('\n');
    }
    assert_eq!(parse(&text), records);
}
