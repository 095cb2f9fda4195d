use shapez::analyze::canon::homogenize;
use shapez::analyze::dist::Buckets;
use shapez::analyze::noted::Noted;
use shapez::analyze::sig::{ScalarKind, Sig};
use shapez::batch::time::{TimePredicate, UnixTime};
use shapez::double::Double;
use shapez::ingest::JsonEventSink;
use shapez::sketch::SpaceSaving;
use shapez::sniff::report::{Candidate, SniffReport, Syntax};
use shapez::sniff::stream::{sniff, SniffPolicy};
use shapez::StreamingAnalyzer;

fn double(v: f64) -> Double {
    Double { bits: v.to_bits() }
}

fn at(nanos: i128) -> UnixTime {
    UnixTime { nanos }
}

#[test]
fn windows_that_meet_share_no_time() {
    let early = TimePredicate { start: Some(at(10)), end: Some(at(20)) };
    let late = TimePredicate { start: Some(at(20)), end: Some(at(30)) };
    let both = TimePredicate { start: Some(at(10)), end: Some(at(30)) };
    for n in 5..35 {
        assert!(!(early.contains(at(n)) && late.contains(at(n))));
        assert_eq!(early.contains(at(n)) || late.contains(at(n)), both.contains(at(n)));
    }
    assert!(early.contains(at(10)));
    assert!(!early.contains(at(20)));
    assert!(TimePredicate::default().contains(at(-1)));
    assert!(!TimePredicate { start: None, end: Some(at(0)) }.contains(at(0)));
}

fn candidate(syntax: Syntax, bits: f64, confidence: f64) -> Candidate {
    Candidate { syntax, bits: double(bits), confidence: double(confidence), evidence: Vec::new() }
}

#[test]
fn candidates_are_ranked_and_none_is_lost() {
    let scored = vec![
        candidate(Syntax::Yaml, -3.0, 0.1),
        candidate(Syntax::Csv, 2.0, 0.8),
        candidate(Syntax::Json, 5.0, 0.97),
        candidate(Syntax::Ini, 2.0, 0.8),
        candidate(Syntax::Hex, 0.5, 0.59),
    ];
    let policy = SniffPolicy { min_confidence: double(0.6), ..SniffPolicy::default() };
    let r = SniffReport::assemble(sniff(b"a,b\n1,2\n"), scored, &policy);
    let names = |v: &Vec<Candidate>| v.iter().map(|c| c.syntax).collect::<Vec<_>>();
    assert_eq!(names(&r.candidates), [Syntax::Json, Syntax::Csv, Syntax::Ini]);
    assert_eq!(names(&r.rejected), [Syntax::Hex, Syntax::Yaml]);
    assert_eq!(r.best().unwrap().syntax, Syntax::Json);
    assert_eq!(r.candidate(Syntax::Yaml).unwrap().bits, double(-3.0));
    assert!(r.candidate(Syntax::Xml).is_none());
    assert!(!r.is_unknown());
    assert_eq!(r.bytes_total, 8);

    // Both sides fall, and the floor is between them.
    for side in [&r.candidates, &r.rejected] {
        for pair in side.windows(2) {
            assert!(f64::from_bits(pair[1].bits.bits) <= f64::from_bits(pair[0].bits.bits));
            let (a, b) = (pair[0].confidence, pair[1].confidence);
            assert!(f64::from_bits(b.bits) <= f64::from_bits(a.bits));
        }
    }
    assert!(r.candidates.iter().all(|c| f64::from_bits(c.confidence.bits) >= 0.6));
    assert!(r.rejected.iter().all(|c| f64::from_bits(c.confidence.bits) < 0.6));

    let strict = SniffPolicy { min_confidence: double(0.99), ..SniffPolicy::default() };
    let scored = vec![candidate(Syntax::Csv, 2.0, 0.8)];
    let r = SniffReport::assemble(sniff(b"a,b\n1,2\n"), scored, &strict);
    assert!(r.is_unknown());
    assert!(r.best().is_none());
    assert!(r.candidate(Syntax::Csv).is_some());
}

#[test]
fn heavy_hitters_survive_a_long_tail() {
    let mut s: SpaceSaving<u32> = SpaceSaving::new(4);
    for i in 0..100u32 {
        s.observe(1000 + i);
        s.observe(7);
    }
    assert_eq!(s.observations(), 200);
    assert!(s.count(&7) >= 100);
    assert_eq!(s.entries()[0].0, 7);
    assert_eq!(s.entries().iter().map(|e| e.1).sum::<u64>(), 200);
    assert!(s.evictions() > 0);

    let mut few: SpaceSaving<u32> = SpaceSaving::new(4);
    for k in [3u32, 5, 3, 3, 9] {
        few.observe(k);
    }
    assert_eq!(few.count(&3), 3);
    assert_eq!(few.count(&5), 1);
    assert_eq!(few.count(&4), 0);
    assert_eq!(few.evictions(), 0);

    // A counter for each distinct key, up to the cap.
    assert_eq!(few.entries().len(), 3);
    assert_eq!(s.entries().len(), 4);
    let mut one: SpaceSaving<u32> = SpaceSaving::new(0);
    for k in [3u32, 5, 3] {
        one.observe(k);
    }
    assert_eq!(one.entries().len(), 1);
    // A key without a counter has not occurred more often than any counter says.
    let least = s.entries().iter().map(|e| e.1).min().unwrap();
    assert_eq!(s.count(&1000), 0);
    assert!(least >= 1);
}

#[test]
fn the_signature_of_an_array_has_no_order() {
    let number = || Sig::Scalar(ScalarKind::I64);
    let text = || Sig::Scalar(ScalarKind::String);
    let a = homogenize(vec![number(), text(), Sig::Empty]);
    let b = homogenize(vec![text(), Sig::Empty, number(), number(), text()]);
    assert!(a.equals(&b));
    assert!(!a.equals(&homogenize(vec![number(), text()])));
    assert!(homogenize(vec![number(), number()]).equals(&number()));
    assert!(homogenize(Vec::new()).equals(&Sig::Empty));
}

#[test]
fn the_arms_of_a_mixed_array_are_its_distinct_signatures() {
    let number = || Sig::Scalar(ScalarKind::I64);
    let text = || Sig::Scalar(ScalarKind::String);
    let deep = || Sig::Array(Box::new(number()));
    let s = homogenize(vec![deep(), text(), number(), text(), Sig::Empty, deep()]);
    let Sig::Variant(arms) = &s else { panic!("{s:?}") };
    assert_eq!(arms.len(), 4);
    for want in [number(), text(), deep(), Sig::Empty] {
        assert_eq!(arms.iter().filter(|a| a.equals(&want)).count(), 1);
    }
    let again = homogenize(vec![Sig::Empty, deep(), text(), number()]);
    let Sig::Variant(same) = &again else { panic!("{again:?}") };
    assert!(arms.iter().zip(same).all(|(a, b)| a.equals(b)), "in one order");
}

#[test]
fn noted_numbers_are_those_that_were_seen() {
    let buckets = || Buckets::new(vec![double(1.0).bits, double(10.0).bits]);
    let mut plain = StreamingAnalyzer::new(buckets());
    let mut noted = Noted::new(StreamingAnalyzer::new(buckets()));
    plain.document_begin(0);
    plain.array_begin();
    plain.i64(-2);
    plain.string("x");
    plain.double(double(0.5));
    plain.array_end();
    plain.document_end();
    noted.document_begin(0);
    noted.array_begin();
    noted.i64(-2);
    noted.string("x");
    noted.double(double(0.5));
    noted.array_end();
    noted.document_end();
    assert_eq!(format!("{:?}", plain.report()), format!("{:?}", noted.analyzer.report()));
    let numbers = noted.take_numbers();
    let values: Vec<f64> = numbers.iter().map(|n| f64::from_bits(n.1.bits)).collect();
    assert_eq!(values, [-2.0, 0.5]);
    assert!(numbers[0].0 != numbers[1].0);
    assert!(noted.take_numbers().is_empty());
}
