//! Bodies written from values of other types, and read as them.

use std::collections::BTreeMap;

use archivindex_warc::record::fields;
use archivindex_warc::record::fields::metadata::MetadataBody;
use archivindex_warc::record::fields::serde::{from_body, to_body, Datum, Error, FieldValues};
use archivindex_warc::record::fields::warcinfo::WarcinfoBody;
use archivindex_warc::value::ip::IpAddress;

fn text(value: &str) -> Datum {
    Datum::Text(value.to_string())
}

fn number(value: i128) -> Datum {
    Datum::Scalar(value.to_string())
}

fn optional(value: Option<Datum>) -> Datum {
    match value {
        Some(value) => Datum::Present(Box::new(value)),
        None => Datum::Absent,
    }
}

fn record(fields: Vec<(&str, Datum)>) -> Datum {
    Datum::Struct(
        fields
            .into_iter()
            .map(|(name, value)| (name.to_string(), value))
            .collect(),
    )
}

/// The entry with exactly the name.
fn entry<'a, 'b>(entries: &'b [FieldValues<'a>], name: &str) -> Option<&'b FieldValues<'a>> {
    entries.iter().find(|entry| entry.name == name)
}

/// A crawler-specific schema with required, optional, repeated, and typed fields.
#[derive(Debug, PartialEq)]
struct CrawlInfo {
    software: String,
    is_part_of: String,
    subject: Vec<String>,
    operator: Option<String>,
    ip: Option<IpAddress>,
}

const CRAWL_INFO: [&str; 5] = ["software", "isPartOf", "subject", "operator", "ip"];

impl CrawlInfo {
    fn read(body: &WarcinfoBody) -> Result<Self, Error> {
        let entries = from_body(body, &CRAWL_INFO);
        let optional = |name: &str| entry(&entries, name).map(|entry| entry.single()).transpose();
        Ok(Self {
            software: optional("software")?.expect("software").to_string(),
            is_part_of: optional("isPartOf")?.expect("isPartOf").to_string(),
            subject: entry(&entries, "subject").map_or(Ok(Vec::new()), |entry| {
                entry
                    .elements()
                    .iter()
                    .map(|element| element.single().map(str::to_string))
                    .collect()
            })?,
            operator: optional("operator")?.map(str::to_string),
            ip: optional("ip")?.and_then(|value| IpAddress::parse(value.as_bytes())),
        })
    }

    fn datum(&self) -> Datum {
        record(vec![
            ("software", text(&self.software)),
            ("isPartOf", text(&self.is_part_of)),
            (
                "subject",
                Datum::Sequence(self.subject.iter().map(|value| text(value)).collect()),
            ),
            (
                "operator",
                optional(self.operator.as_ref().map(|value| text(value))),
            ),
            ("ip", optional(self.ip.map(|value| text(&value.to_string())))),
        ])
    }
}

/// Required, optional, repeated, and typed fields read as expected, while unknown fields are
/// ignored.
#[test]
fn an_opinionated_struct_reads_from_a_body() -> Result<(), Error> {
    let body = WarcinfoBody::parse(
        b"software: mycrawler/1.0\r\n\
          isPartOf: crawl-2026-08\r\n\
          ip: 203.0.113.7\r\n\
          subject: one\r\n\
          x-unrelated: noise\r\n\
          subject: two\r\n",
    )
    .map_err(Error::Field)?;

    assert_eq!(
        CrawlInfo::read(&body)?,
        CrawlInfo {
            software: "mycrawler/1.0".to_string(),
            is_part_of: "crawl-2026-08".to_string(),
            subject: vec!["one".to_string(), "two".to_string()],
            operator: None,
            ip: IpAddress::parse(b"203.0.113.7"),
        }
    );

    Ok(())
}

/// A field that is not in the body has no entry.
#[test]
fn an_absent_field_has_no_entry() -> Result<(), Error> {
    let body = WarcinfoBody::parse(b"isPartOf: crawl-2026-08\r\n").map_err(Error::Field)?;
    let entries = from_body(&body, &CRAWL_INFO);

    assert_eq!(entries.len(), 1);
    assert!(entry(&entries, "software").is_none());

    Ok(())
}

/// A repeated field must be read as a sequence; reading it as one value is an error.
#[test]
fn a_repeated_field_reads_as_a_sequence_and_not_as_one_value() -> Result<(), Error> {
    let body = WarcinfoBody::parse(b"subject: one\r\nsubject: two\r\n").map_err(Error::Field)?;
    let entries = from_body(&body, &["subject"]);
    let subject = entry(&entries, "subject").expect("an entry");

    assert_eq!(
        subject.single(),
        Err(Error::RepeatedField {
            name: "subject".to_string(),
            count: 2,
        })
    );
    assert_eq!(subject.values, ["one", "two"]);
    assert_eq!(
        subject
            .elements()
            .iter()
            .map(|element| element.single().unwrap())
            .collect::<Vec<_>>(),
        ["one", "two"]
    );

    Ok(())
}

/// Typed values are parsed individually, and an invalid value reports its field and expected type.
#[test]
fn typed_values_parse_or_report_the_field() -> Result<(), Error> {
    let timings = |body: &MetadataBody| -> Result<Vec<u128>, Error> {
        let entries = from_body(body, &["fetchTimeMs"]);
        entry(&entries, "fetchTimeMs")
            .expect("an entry")
            .elements()
            .iter()
            .map(|element| element.unsigned(u128::from(u64::MAX)))
            .collect()
    };

    let body =
        MetadataBody::parse(b"fetchTimeMs: 565\r\nfetchTimeMs: 32\r\n").map_err(Error::Field)?;
    assert_eq!(timings(&body)?, [565, 32]);

    let unreadable = MetadataBody::parse(b"fetchTimeMs: quick\r\n").map_err(Error::Field)?;
    assert_eq!(
        timings(&unreadable),
        Err(Error::UnreadableValue {
            name: "fetchTimeMs".to_string(),
            expected: "an integer",
        })
    );

    Ok(())
}

/// The scalar representations supported by warc-fields read from and write to text.
#[test]
fn scalar_kinds_round_trip_through_text() -> Result<(), Error> {
    let names = [
        "enabled", "i8_value", "i16_value", "i32_value", "i64_value", "i128_value", "u8_value",
        "u16_value", "u32_value", "u64_value", "u128_value", "f32_value", "f64_value", "initial",
    ];
    let body = MetadataBody::parse(
        b"enabled: true\r\n\
          i8_value: -8\r\n\
          i16_value: -16\r\n\
          i32_value: -32\r\n\
          i64_value: -64\r\n\
          i128_value: -128\r\n\
          u8_value: 8\r\n\
          u16_value: 16\r\n\
          u32_value: 32\r\n\
          u64_value: 64\r\n\
          u128_value: 128\r\n\
          f32_value: 1.5\r\n\
          f64_value: 1.25\r\n\
          initial: W\r\n",
    )
    .map_err(Error::Field)?;
    let entries = from_body(&body, &names);
    let get = |name: &str| entry(&entries, name).expect("an entry");

    assert_eq!(get("enabled").boolean(), Ok(true));
    assert_eq!(
        get("i8_value").signed(i128::from(i8::MIN), i128::from(i8::MAX)),
        Ok(-8)
    );
    assert_eq!(
        get("i16_value").signed(i128::from(i16::MIN), i128::from(i16::MAX)),
        Ok(-16)
    );
    assert_eq!(
        get("i32_value").signed(i128::from(i32::MIN), i128::from(i32::MAX)),
        Ok(-32)
    );
    assert_eq!(
        get("i64_value").signed(i128::from(i64::MIN), i128::from(i64::MAX)),
        Ok(-64)
    );
    assert_eq!(get("i128_value").signed(i128::MIN, i128::MAX), Ok(-128));
    assert_eq!(get("u8_value").unsigned(u128::from(u8::MAX)), Ok(8));
    assert_eq!(get("u16_value").unsigned(u128::from(u16::MAX)), Ok(16));
    assert_eq!(get("u32_value").unsigned(u128::from(u32::MAX)), Ok(32));
    assert_eq!(get("u64_value").unsigned(u128::from(u64::MAX)), Ok(64));
    assert_eq!(get("u128_value").unsigned(u128::MAX), Ok(128));
    assert_eq!(get("f32_value").single()?.parse::<f32>(), Ok(1.5));
    assert_eq!(get("f64_value").single()?.parse::<f64>(), Ok(1.25));
    assert_eq!(get("initial").character(), Ok('W'));

    let scalars = record(vec![
        ("enabled", Datum::Scalar(true.to_string())),
        ("i8_value", number(-8)),
        ("i16_value", number(-16)),
        ("i32_value", number(-32)),
        ("i64_value", number(-64)),
        ("i128_value", number(-128)),
        ("u8_value", number(8)),
        ("u16_value", number(16)),
        ("u32_value", number(32)),
        ("u64_value", number(64)),
        ("u128_value", number(128)),
        ("f32_value", Datum::Scalar(1.5_f32.to_string())),
        ("f64_value", Datum::Scalar(1.25_f64.to_string())),
        ("initial", Datum::Scalar('W'.to_string())),
    ]);
    let rebuilt: MetadataBody = to_body(&scalars)?;
    assert_eq!(rebuilt.to_string(), body.to_string());

    Ok(())
}

/// A scalar that its type cannot hold, or that is not spelled as one, is told.
#[test]
fn scalars_are_held_to_their_range() {
    let read = |value: &'static str| FieldValues {
        name: "field",
        values: vec![value],
    };
    let unreadable = |expected: &'static str| Error::UnreadableValue {
        name: "field".to_string(),
        expected,
    };

    assert_eq!(read("+255").unsigned(255), Ok(255));
    assert_eq!(read("256").unsigned(255), Err(unreadable("an integer")));
    assert_eq!(read("-0").unsigned(255), Err(unreadable("an integer")));
    assert_eq!(read("+").unsigned(255), Err(unreadable("an integer")));
    assert_eq!(read("").unsigned(255), Err(unreadable("an integer")));
    assert_eq!(
        read("340282366920938463463374607431768211455").unsigned(u128::MAX),
        Ok(u128::MAX)
    );
    assert_eq!(
        read("340282366920938463463374607431768211456").unsigned(u128::MAX),
        Err(unreadable("an integer"))
    );
    assert_eq!(read("-128").signed(-128, 127), Ok(-128));
    assert_eq!(read("128").signed(-128, 127), Err(unreadable("an integer")));
    assert_eq!(
        read("-170141183460469231731687303715884105728").signed(i128::MIN, i128::MAX),
        Ok(i128::MIN)
    );
    assert_eq!(
        read("170141183460469231731687303715884105728").signed(i128::MIN, i128::MAX),
        Err(unreadable("an integer"))
    );
    assert_eq!(read("-").signed(-128, 127), Err(unreadable("an integer")));
    assert_eq!(read("false").boolean(), Ok(false));
    assert_eq!(read("True").boolean(), Err(unreadable("a boolean")));
    assert_eq!(read("\u{e9}").character(), Ok('\u{e9}'));
    assert_eq!(read("ab").character(), Err(unreadable("a character")));
}

/// Newtypes and both tuple forms use the same textual and repeated-field representations as their
/// underlying values.
#[test]
fn newtypes_and_fixed_sequences_round_trip() -> Result<(), Error> {
    let body = MetadataBody::parse(
        b"count: 3\r\n\
          bounds: -2\r\n\
          bounds: 7\r\n\
          pair: 4\r\n\
          pair: 9\r\n",
    )
    .map_err(Error::Field)?;
    let entries = from_body(&body, &["count", "bounds", "pair"]);
    let elements = |name: &str| -> Result<Vec<i128>, Error> {
        entry(&entries, name)
            .expect("an entry")
            .elements()
            .iter()
            .map(|element| element.signed(-128, 127))
            .collect()
    };

    assert_eq!(entry(&entries, "count").expect("an entry").unsigned(65535), Ok(3));
    assert_eq!(elements("bounds")?, [-2, 7]);
    assert_eq!(elements("pair")?, [4, 9]);

    let values = record(vec![
        ("count", Datum::Newtype(Box::new(number(3)))),
        ("bounds", Datum::Sequence(vec![number(-2), number(7)])),
        ("pair", Datum::Sequence(vec![number(4), number(9)])),
    ]);
    let rebuilt: MetadataBody = to_body(&values)?;
    assert_eq!(rebuilt.to_string(), body.to_string());

    Ok(())
}

/// Struct field names match body field names case-insensitively.
#[test]
fn names_match_case_insensitively() -> Result<(), Error> {
    // Exercise a lowercased extension name and a canonicalized standard name.
    let body =
        MetadataBody::parse(b"X-CUSTOM: one\r\nhopsfromseed: LE\r\n").map_err(Error::Field)?;
    let custom = from_body(&body, &["X-Custom", "HOPSFROMSEED"]);

    assert_eq!(entry(&custom, "X-Custom").expect("an entry").single()?, "one");
    assert_eq!(
        entry(&custom, "HOPSFROMSEED").expect("an entry").single()?,
        "LE"
    );

    Ok(())
}

/// A name that is not expected keeps its canonical spelling, so that it can be refused by it.
#[test]
fn unknown_fields_keep_their_names() -> Result<(), Error> {
    let body =
        WarcinfoBody::parse(b"software: one\r\nx-custom: two\r\n").map_err(Error::Field)?;
    let entries = from_body(&body, &["software"]);

    assert_eq!(
        entries.iter().map(|entry| entry.name).collect::<Vec<_>>(),
        ["software", "x-custom"]
    );

    Ok(())
}

/// A unit enum variant round-trips through its field value.
#[test]
fn a_unit_enum_variant_round_trips_through_its_name() -> Result<(), Error> {
    let body = WarcinfoBody::parse(b"robots: classic\r\n").map_err(Error::Field)?;
    let entries = from_body(&body, &["robots"]);
    assert_eq!(entry(&entries, "robots").expect("an entry").single()?, "classic");

    let rebuilt: WarcinfoBody =
        to_body(&record(vec![("robots", Datum::Variant("ignore".to_string()))]))?;
    assert_eq!(rebuilt.to_string(), "robots: ignore\r\n");

    Ok(())
}

/// Writing preserves declaration order, omits absent values, emits one line per sequence element,
/// and round-trips through reading.
#[test]
fn a_struct_round_trips_through_a_body() -> Result<(), Error> {
    let info = CrawlInfo {
        software: "mycrawler/1.0".to_string(),
        is_part_of: "crawl-2026-08".to_string(),
        subject: vec!["one".to_string(), "two".to_string()],
        operator: None,
        ip: IpAddress::parse(b"203.0.113.7"),
    };

    let body: WarcinfoBody = to_body(&info.datum())?;

    assert_eq!(
        body.to_string(),
        "software: mycrawler/1.0\r\n\
         isPartOf: crawl-2026-08\r\n\
         subject: one\r\n\
         subject: two\r\n\
         ip: 203.0.113.7\r\n"
    );
    assert_eq!(CrawlInfo::read(&body)?, info);

    Ok(())
}

/// Values rejected by the field grammar remain errors during writing.
#[test]
fn writing_a_value_the_grammar_refuses_is_an_error() {
    let result: Result<WarcinfoBody, Error> =
        to_body(&record(vec![("software", text("one\r\ninjected: two"))]));

    assert!(matches!(
        result,
        Err(Error::Field(fields::Error::UnwritableField { .. }))
    ));
}

/// A top-level value must be a struct or map to be written as a body.
#[test]
fn only_a_struct_or_map_writes_as_a_body() {
    let result: Result<WarcinfoBody, Error> = to_body(&text("just some text"));

    assert!(matches!(result, Err(Error::Unsupported(_))));
}

fn mapping<T>(map: &BTreeMap<String, T>, value: impl Fn(&T) -> Datum) -> Datum {
    Datum::Mapping(
        map.iter()
            .map(|(name, held)| (text(name), value(held)))
            .collect(),
    )
}

/// A string map supports fields that are not fixed at compile time.
#[test]
fn a_map_reads_and_writes() -> Result<(), Error> {
    let body =
        WarcinfoBody::parse(b"software: one\r\nhostname: a-host\r\n").map_err(Error::Field)?;
    let map: BTreeMap<String, String> = from_body(&body, &[])
        .iter()
        .map(|entry| Ok((entry.name.to_string(), entry.single()?.to_string())))
        .collect::<Result<_, Error>>()?;

    assert_eq!(map["software"], "one");
    assert_eq!(map["hostname"], "a-host");

    let rebuilt: WarcinfoBody = to_body(&mapping(&map, |value| text(value)))?;
    assert_eq!(rebuilt.to_string(), "hostname: a-host\r\nsoftware: one\r\n");

    Ok(())
}

/// Dynamic maps retain repeated values, including a field that appears only once.
#[test]
fn a_map_can_hold_repeated_fields() -> Result<(), Error> {
    let body = WarcinfoBody::parse(
        b"subject: one\r\n\
          subject: two\r\n\
          software: crawler/1.0\r\n",
    )
    .map_err(Error::Field)?;
    let map: BTreeMap<String, Vec<String>> = from_body(&body, &[])
        .iter()
        .map(|entry| {
            (
                entry.name.to_string(),
                entry.values.iter().map(|value| value.to_string()).collect(),
            )
        })
        .collect();

    assert_eq!(map["subject"], ["one", "two"]);
    assert_eq!(map["software"], ["crawler/1.0"]);

    let rebuilt: WarcinfoBody = to_body(&mapping(&map, |values| {
        Datum::Sequence(values.iter().map(|value| text(value)).collect())
    }))?;
    assert_eq!(
        rebuilt.to_string(),
        "software: crawler/1.0\r\nsubject: one\r\nsubject: two\r\n"
    );

    Ok(())
}

/// Map keys must provide field names as strings.
#[test]
fn a_non_string_map_key_is_rejected() {
    let result: Result<WarcinfoBody, Error> =
        to_body(&Datum::Mapping(vec![(number(1), text("one"))]));

    assert_eq!(
        result,
        Err(Error::Unsupported(
            "a field's name must serialize as a string"
        ))
    );
}

/// Borrowed fields read without copying their values from the body.
#[test]
fn a_struct_can_borrow_from_the_body() -> Result<(), Error> {
    let body = WarcinfoBody::parse(b"software: one\r\n").map_err(Error::Field)?;
    let software: &str = {
        let entries = body.deserialize(&["software"]);
        entry(&entries, "software").expect("an entry").single()?
    };

    assert_eq!(software, "one");

    Ok(())
}

/// Optional and newtype wrappers around a body retain the body's top-level representation.
#[test]
fn top_level_wrappers_serialize_as_bodies() -> Result<(), Error> {
    let absent: WarcinfoBody = to_body(&Datum::Absent)?;
    assert!(absent.is_empty());

    let present: WarcinfoBody = to_body(&Datum::Present(Box::new(record(vec![(
        "software",
        text("one"),
    )]))))?;
    assert_eq!(present.to_string(), "software: one\r\n");

    let wrapped: WarcinfoBody = to_body(&Datum::Newtype(Box::new(record(vec![(
        "software",
        text("two"),
    )]))))?;
    assert_eq!(wrapped.to_string(), "software: two\r\n");

    Ok(())
}

/// Every compound top-level shape other than a struct or map is rejected consistently.
#[test]
fn compound_top_level_values_are_rejected() {
    for value in [
        Datum::Sequence(vec![number(1), number(2)]),
        Datum::Unit,
        Datum::DataVariant,
        Datum::Variant("one".to_string()),
        Datum::Bytes(b"one".to_vec()),
    ] {
        let result: Result<WarcinfoBody, Error> = to_body(&value);
        assert!(
            matches!(
                result,
                Err(Error::Unsupported(
                    "only a struct or map serializes as a warc-fields body"
                ))
            ),
            "{value:?}"
        );
    }
}

/// A field value is flat: units, nested containers, and data-carrying variants do not fit.
#[test]
fn nested_non_scalar_values_are_rejected() {
    for value in [
        Datum::Unit,
        Datum::DataVariant,
        Datum::Mapping(vec![(text("nested"), text("value"))]),
        record(vec![("value", number(1))]),
    ] {
        let result: Result<WarcinfoBody, Error> = to_body(&record(vec![("field", value)]));
        assert!(matches!(
            result,
            Err(Error::Unsupported(
                "a field's value must serialize as text, a number, or a sequence of them"
            ))
        ));
    }

    let nested = Datum::Sequence(vec![Datum::Sequence(vec![number(1)])]);
    let result: Result<WarcinfoBody, Error> = to_body(&record(vec![("field", nested)]));
    assert!(matches!(
        result,
        Err(Error::Unsupported("a sequence nested in a sequence"))
    ));
}

/// Byte values use their UTF-8 text representation; arbitrary binary data is not a field.
#[test]
fn utf_8_bytes_round_trip_as_text() -> Result<(), Error> {
    let body = WarcinfoBody::parse(b"value: some text\r\n").map_err(Error::Field)?;
    let entries = from_body(&body, &["value"]);
    let value = entry(&entries, "value").expect("an entry").single()?;
    assert_eq!(value.as_bytes(), b"some text");

    let field = record(vec![("value", Datum::Bytes(value.as_bytes().to_vec()))]);
    let rebuilt: WarcinfoBody = to_body(&field)?;
    assert_eq!(rebuilt.to_string(), body.to_string());

    let binary = record(vec![("value", Datum::Bytes(vec![0xff]))]);
    let result: Result<WarcinfoBody, Error> = to_body(&binary);
    assert!(matches!(
        result,
        Err(Error::Unsupported("bytes that are not UTF-8 text"))
    ));

    Ok(())
}

/// Dynamic map keys accept strings and string newtypes, and reject every compound shape.
#[test]
fn dynamic_map_keys_must_flatten_to_strings() -> Result<(), Error> {
    let body: WarcinfoBody = to_body(&Datum::Mapping(vec![(
        Datum::Newtype(Box::new(text("software"))),
        text("one"),
    )]))?;
    assert_eq!(body.to_string(), "software: one\r\n");

    for key in [
        Datum::Present(Box::new(text("name"))),
        Datum::Sequence(vec![number(1)]),
        Datum::Mapping(vec![(number(1), number(2))]),
        record(vec![("value", number(1))]),
        Datum::DataVariant,
        Datum::Absent,
        Datum::Unit,
        Datum::Bytes(b"name".to_vec()),
        Datum::Variant("name".to_string()),
    ] {
        let result: Result<WarcinfoBody, Error> =
            to_body(&Datum::Mapping(vec![(key, text("value"))]));
        assert!(matches!(result, Err(Error::Unsupported(_))));
    }

    Ok(())
}
