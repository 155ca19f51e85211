use kaiser::score::{score, Heuristic, ScoreMethod, MAX_SCORE, MIN_SCORE};
use kaiser::stats::{QuadgramTable, QUADGRAM_ENTRIES};
use kaiser::Buffer;

const GIBBERISH: &str = "WKJGGTOLIOTBBZXFPJCRDNCWWIAODDBRPFPSIAVEIXVPKTAFDFBVPF\
     ZEWWBLNMZSLZFIWKFUWGOIDMFGMYVITNKLIISPJCMMHROJQWPNXJOZ\
     PQTNIRULXXKXBACQMYWXFIDTLAZTKQTOYCRXEGKUHKMUHUCTZHCWIK\
     AJNRRPARZXBWDWRMVZNLFXEBBMTHEQMUHRIOEQNELQIGGGGJYNZSLY\
     FXGTXUGOOBEUCSWGTFFRIBDVAKDHWVKNFKWJNLSIRIZERYDFDXKEGH\
     VTYMMESSAHEUIQXCGLETPGGTIYUUNPMFRNLMBKKAGEUDZMCTJIJDVR\
     UUGZKFNANUHCXCTXGLSEGFPELPLUXLXNDTRZKHGQSGVIAMAFCWYVJG\
     APGZLQXMTGRUJWUAZQXAAURTBGYWNAZUWOEIKXTGBTEPMYBBKKSEZK\
     XRPPMFXDLUQAHBHGYZUOVZCXLRDHLKSQZAELIGKKRCOMWZQPHIXZLW\
     RGANGJEONGASRVOGZUKGRPTMYSSTGMMZRFKVIBGTPMZLIIVAVVRCPJ\
     DBWVEQCMUZTARLMQCDMZQIMAIRXOEZIEHJRAUDTKBTCHOPPDPEQTUB\
     PMPMVEUHTKVJLZVCRQRXIMXKAGLVEVWODZCHOMQXEOJTPAOUWQCGKH\
     JTVJWOPLKGEDZMOGBFCDYRKQSTEXFDUUCAORLUJLLFEBRNCZCEVJZM\
     KPCYFGNYNOEYSQERPBGYAQAPLGGYWCOLSISSRWBDGCRHLTEGVIAQID\
     EQKODHJHZMFOJHKFGJEXMZONMQKNNDRNPZPXHMANOKLFRHHYPVGWLL\
     RNRNKVRSIGOZWAWPKQDJMVSWHSRRHBTOOIVOKQNLOUYCYAXFNVHDDA";

const ENGLISH: &str = "SINGLONGHERWAYSIZEWAITEDENDMUTUALMISSEDMYSELFTHELITTLE\
     SISTERONESOINPOINTEDORCHICKENCHEEREDNEITHERSPIRITSINVI\
     TEDMARIANNEANDHIMLAUGHTERCIVILITYFORMERLYHANDSOMESEXUS\
     EPROSPECTHENCEWEDOORSISGIVENRAPIDSCALEABOVEAMDIFFICULT\
     YEMRDELIVEREDBEHAVIOURBYANIFTHEIRWOMANCOULDDOWOUNDONYO\
     UFOLLYTASTEHOPEDTHEIRABOVEAREANDBUTATOURSELVESDIRECTIO\
     NBELIEVINGDOHEDEPARTURECELEBRATEDHERHADSENTIMENTSUNDER\
     STOODAREPROJECTIONSETPOSSESSIONYENOMRUNAFFECTEDREMARKA\
     BLYATWROTEHOUSEINNEVERFRUITUPPASTUREIMAGINEMYGARRETSAN\
     HEHOWEVERDISTANTSHEREQUESTBEHAVEDSEENOTHINGTALKINGSETT\
     LEDATPLEASEDANOFMEBROTHERWEATHERINONANNOUNCINGIFOFCOMP\
     ARISONPIANOFORTEPROJECTIONMAIDSHOPEDGAYYETBEDASKEDBLIN\
     DDRIEDPOINTONABROADDANGERLIKELYREGRETTWENTYEDWARDDOTOO\
     HORRIBLECONSIDERFOLLOWEDMAYDIFFEREDAGEANRESTIFMOREFIVE\
     MROFAGEJUSTHERRANKMETDOWNWAYATTENDEDREQUIREDSOINCHEERF\
     ULANDOMESTICREPLYINGSHERESOLVEDHIMFORDIDRATHERINLASTED";

const CORPUS: &str = "The morning was cold and the streets were still when the old teacher walked down to the \
     river. She had lived in the town for thirty years and knew every house, every garden and \
     nearly every family in it. Her brother and her sister had gone to the city long before, and \
     their letters came seldom, though she answered each one the same evening. On this day she \
     carried a basket with bread, cheese and a little fruit, for she intended to spend the whole \
     afternoon with her friends on the other side of the water. The weather, which had been \
     pleasant in the spring, was now rather uncertain, and she wondered whether the rain would \
     begin before she reached the bridge. At the corner by the market she met the doctor, who was \
     returning from a visit in the country. He told her that the roads were in a wretched \
     condition and that the farmers were anxious about the harvest. They talked together for some \
     minutes about the children, the school, and the new minister, and then parted with many \
     expressions of regard. Nothing remarkable happened during the rest of her journey, except \
     that a dog followed her through the fields and would not be persuaded to return. Her friends \
     received her with the greatest pleasure, and the conversation continued until the candles \
     were brought in. Everyone agreed that the evening had passed delightfully, and that there \
     ought to be another meeting before the winter. When at last she went home the moon was \
     shining over the hills, the wind had fallen, and there was no sound but her own steps on the \
     stones. She thought of the questions that had been asked, of the stories that had been told, \
     and of everything that she would write to her sister in the morning. It is certain that \
     people who are content with little are often happier than those who possess a great deal, \
     and she considered herself, on the whole, a fortunate woman. The house was dark when she \
     opened the door, but the fire was not quite out, and she sat beside it for an hour thinking \
     over the events of the day before she went upstairs to bed.";

/// A table of quadgram log-likelihoods in thousandths, counted from `corpus`.
fn table_from_corpus(corpus: &str) -> QuadgramTable {
    let letters: Vec<usize> = corpus
        .chars()
        .filter(|c| c.is_ascii_alphabetic())
        .map(|c| (c.to_ascii_uppercase() as u8 - b'A') as usize)
        .collect();
    let mut counts = vec![0u32; QUADGRAM_ENTRIES];
    for w in letters.windows(4) {
        counts[((w[0] * 26 + w[1]) * 26 + w[2]) * 26 + w[3]] += 1;
    }
    let total = (letters.len() - 3) as f64;
    let entries: Vec<i32> = counts
        .iter()
        .map(|&n| (((n as f64 + 0.01) / total).log10() * 1000.0).round() as i32)
        .collect();
    QuadgramTable::new(entries).unwrap()
}

#[test]
fn score_test_scores() {
    let table = table_from_corpus(CORPUS);
    let gibberish: Buffer = Buffer::from_str(GIBBERISH).unwrap();
    let english: Buffer = Buffer::from_str(ENGLISH).unwrap();

    // Check that our mins and max are in order
    assert!(gibberish.score(ScoreMethod::IOC, &table) > MIN_SCORE);
    assert!(english.score(ScoreMethod::IOC, &table) < MAX_SCORE);
    assert!(MIN_SCORE < MAX_SCORE);

    // Check that our heuristics are giving sane results
    assert!(gibberish.score(ScoreMethod::IOC, &table) < english.score(ScoreMethod::IOC, &table));
    assert!(
        gibberish.score(ScoreMethod::ChiSquared, &table)
            < english.score(ScoreMethod::ChiSquared, &table)
    );
    assert!(
        gibberish.score(ScoreMethod::Quadgrams, &table)
            < english.score(ScoreMethod::Quadgrams, &table)
    );
}

#[test]
fn heuristic_test_scores() {
    let table = QuadgramTable::new(vec![0; QUADGRAM_ENTRIES]).unwrap();
    let gibberish: Buffer = Buffer::from_str(GIBBERISH).unwrap();
    let english: Buffer = Buffer::from_str(ENGLISH).unwrap();

    // Check that our mins and max are in order
    assert!(gibberish.score(Heuristic::IOC.method(), &table) > MIN_SCORE);
    assert!(english.score(Heuristic::IOC.method(), &table) < MAX_SCORE);
    assert!(MIN_SCORE < MAX_SCORE);

    // Check that our heuristics are giving sane results
    assert!(
        gibberish.score(Heuristic::IOC.method(), &table)
            < english.score(Heuristic::IOC.method(), &table)
    );
    assert!(
        gibberish.score(Heuristic::ChiSquared.method(), &table)
            < english.score(Heuristic::ChiSquared.method(), &table)
    );
}

#[test]
fn each_method_has_its_formula() {
    let mut entries = vec![0i32; QUADGRAM_ENTRIES];
    entries[17 * 26 * 26 * 26 + 20 * 26 * 26 + 18 * 26 + 19] = -3200;
    let table = QuadgramTable::new(entries).unwrap();
    let buf = Buffer::from_str("Rust is the best programming language").unwrap();
    assert_eq!(-29514273, score(&buf, ScoreMethod::ChiSquared, &table));
    assert_eq!(-(1730000 - 1310483), score(&buf, ScoreMethod::IOC, &table));
    assert_eq!(-100, score(&buf, ScoreMethod::Quadgrams, &table));
    let even = Buffer::from_str("aa").unwrap();
    assert_eq!(-(26000000 - 1730000), score(&even, ScoreMethod::IOC, &table));
}

#[test]
fn a_text_that_cannot_be_scored_has_the_least_score() {
    let table = QuadgramTable::new(vec![0; QUADGRAM_ENTRIES]).unwrap();
    let empty = Buffer::from_str("").unwrap();
    let one = Buffer::from_str("x").unwrap();
    assert_eq!(MIN_SCORE, empty.score(ScoreMethod::IOC, &table));
    assert_eq!(MIN_SCORE, one.score(ScoreMethod::IOC, &table));
    assert_eq!(MIN_SCORE, empty.score(ScoreMethod::ChiSquared, &table));
    assert_eq!(MIN_SCORE, empty.score(ScoreMethod::Quadgrams, &table));
    assert_eq!(0, one.score(ScoreMethod::Quadgrams, &table));
    assert_eq!(i128::MIN, MIN_SCORE);
    assert_eq!(i128::MAX, MAX_SCORE);
}
