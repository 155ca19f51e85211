use kaiser::ciphers::{Caesar, Decrypt, Encrypt, Substitution};
use kaiser::meta::brute::BruteForce;
use kaiser::meta::hillclimb::{climb_step, HillClimb};
use kaiser::meta::{CrackResults, HeuristicTarget, Metaheuristic, NoParam};
use kaiser::score::{ScoreMethod, MIN_SCORE};
use kaiser::stats::{QuadgramTable, QUADGRAM_ENTRIES};
use kaiser::Buffer;
use rand::rngs::StdRng;
use rand::SeedableRng;

const PLAINTEXT: &str = "SINGLONGHERWAYSIZEWAITEDENDMUTUALMISSEDMYSELFTHELITTLE\
     SISTERONESOINPOINTEDORCHICKENCHEEREDNEITHERSPIRITSINVI\
     TEDMARIANNEANDHIMLAUGHTERCIVILITYFORMERLYHANDSOMESEXUS\
     EPROSPECTHENCEWEDOORSISGIVENRAPIDSCALEABOVEAMDIFFICULT\
     YEMRDELIVEREDBEHAVIOURBYANIFTHEIRWOMANCOULDDOWOUNDONYO\
     UFOLLYTASTEHOPEDTHEIRABOVEAREANDBUTATOURSELVESDIRECTIO\
     NBELIEVINGDOHEDEPARTURECELEBRATEDHERHADSENTIMENTSUNDER\
     STOODAREPROJECTIONSETPOSSESSIONYENOMRUNAFFECTEDREMARKA\
     BLYATWROTEHOUSEINNEVERFRUITUPPASTUREIMAGINEMYGARRETSAN\
     HEHOWEVERDISTANTSHEREQUESTBEHAVEDSEENOTHINGTALKINGSETT\
     LEDATPLEASEDANOFMEBROTHERWEATHERINONANNOUNCINGIFOFCOMP\
     ARISONPIANOFORTEPROJECTIONMAIDSHOPEDGAYYETBEDASKEDBLIN\
     DDRIEDPOINTONABROADDANGERLIKELYREGRETTWENTYEDWARDDOTOO\
     HORRIBLECONSIDERFOLLOWEDMAYDIFFEREDAGEANRESTIFMOREFIVE\
     MROFAGEJUSTHERRANKMETDOWNWAYATTENDEDREQUIREDSOINCHEERF\
     ULANDOMESTICREPLYINGSHERESOLVEDHIMFORDIDRATHERINLASTED";

const CIPHERTEXT: &str = "ZPUNSVUNOLYDHFZPGLDHPALKLUKTBABHSTPZZLKTFZLSMAOLSPAASL\
     ZPZALYVULZVPUWVPUALKVYJOPJRLUJOLLYLKULPAOLYZWPYPAZPUCP\
     ALKTHYPHUULHUKOPTSHBNOALYJPCPSPAFMVYTLYSFOHUKZVTLZLEBZ\
     LWYVZWLJAOLUJLDLKVVYZPZNPCLUYHWPKZJHSLHIVCLHTKPMMPJBSA\
     FLTYKLSPCLYLKILOHCPVBYIFHUPMAOLPYDVTHUJVBSKKVDVBUKVUFV\
     BMVSSFAHZALOVWLKAOLPYHIVCLHYLHUKIBAHAVBYZLSCLZKPYLJAPV\
     UILSPLCPUNKVOLKLWHYABYLJLSLIYHALKOLYOHKZLUAPTLUAZBUKLY\
     ZAVVKHYLWYVQLJAPVUZLAWVZZLZZPVUFLUVTYBUHMMLJALKYLTHYRH\
     ISFHADYVALOVBZLPUULCLYMYBPABWWHZABYLPTHNPULTFNHYYLAZHU\
     OLOVDLCLYKPZAHUAZOLYLXBLZAILOHCLKZLLUVAOPUNAHSRPUNZLAA\
     SLKHAWSLHZLKHUVMTLIYVAOLYDLHAOLYPUVUHUUVBUJPUNPMVMJVTW\
     HYPZVUWPHUVMVYALWYVQLJAPVUTHPKZOVWLKNHFFLAILKHZRLKISPU\
     KKYPLKWVPUAVUHIYVHKKHUNLYSPRLSFYLNYLAADLUAFLKDHYKKVAVV\
     OVYYPISLJVUZPKLYMVSSVDLKTHFKPMMLYLKHNLHUYLZAPMTVYLMPCL\
     TYVMHNLQBZAOLYYHURTLAKVDUDHFHAALUKLKYLXBPYLKZVPUJOLLYM\
     BSHUKVTLZAPJYLWSFPUNZOLYLZVSCLKOPTMVYKPKYHAOLYPUSHZALK";

const CORPUS: &str = "The morning was cold and the streets were still when the old teacher walked down to the \
     river. She had lived in the town for thirty years and knew every house, every garden and \
     nearly every family in it. Her brother and her sister had gone to the city long before, and \
     their letters came seldom, though she answered each one the same evening. On this day she \
     carried a basket with bread, cheese and a little fruit, for she intended to spend the whole \
     afternoon with her friends on the other side of the water. The weather, which had been \
     pleasant in the spring, was now rather uncertain, and she wondered whether the rain would \
     begin before she reached the bridge. At the corner by the market she met the doctor, who was \
     returning from a visit in the country. He told her that the roads were in a wretched \
     condition and that the farmers were anxious about the harvest. They talked together for some \
     minutes about the children, the school, and the new minister, and then parted with many \
     expressions of regard. Nothing remarkable happened during the rest of her journey, except \
     that a dog followed her through the fields and would not be persuaded to return. Her friends \
     received her with the greatest pleasure, and the conversation continued until the candles \
     were brought in. Everyone agreed that the evening had passed delightfully, and that there \
     ought to be another meeting before the winter. When at last she went home the moon was \
     shining over the hills, the wind had fallen, and there was no sound but her own steps on the \
     stones. She thought of the questions that had been asked, of the stories that had been told, \
     and of everything that she would write to her sister in the morning. It is certain that \
     people who are content with little are often happier than those who possess a great deal, \
     and she considered herself, on the whole, a fortunate woman. The house was dark when she \
     opened the door, but the fire was not quite out, and she sat beside it for an hour thinking \
     over the events of the day before she went upstairs to bed.";

/// A table of quadgram log-likelihoods in thousandths, counted from `corpus`.
fn table_from_corpus(corpus: &str) -> QuadgramTable {
    let letters: Vec<usize> = corpus
        .chars()
        .filter(|c| c.is_ascii_alphabetic())
        .map(|c| (c.to_ascii_uppercase() as u8 - b'A') as usize)
        .collect();
    let mut counts = vec![0u32; QUADGRAM_ENTRIES];
    for w in letters.windows(4) {
        counts[((w[0] * 26 + w[1]) * 26 + w[2]) * 26 + w[3]] += 1;
    }
    let total = (letters.len() - 3) as f64;
    let entries: Vec<i32> = counts
        .iter()
        .map(|&n| (((n as f64 + 0.01) / total).log10() * 1000.0).round() as i32)
        .collect();
    QuadgramTable::new(entries).unwrap()
}

#[test]
fn brute_test_brute() {
    let table = table_from_corpus(CORPUS);
    let plaintext: Buffer = Buffer::from_str(PLAINTEXT).unwrap();
    let ciphertext: Buffer = Buffer::from_str(CIPHERTEXT).unwrap();

    let results = BruteForce::new()
        .crack_ciphertext::<Caesar>(
            ciphertext,
            NoParam, // No KeyParam for Caesar ciphers
            ScoreMethod::Quadgrams,
            10,
            &table,
        )
        .unwrap();

    assert!(results.get(0).buf == plaintext);
}

#[test]
fn metaheuristic_test_brute() {
    let table = table_from_corpus(CORPUS);
    let plaintext: Buffer = Buffer::from_str(PLAINTEXT).unwrap();
    let ciphertext: Buffer = Buffer::from_str(CIPHERTEXT).unwrap();

    let results = BruteForce::new()
        .crack_ciphertext::<Caesar>(
            ciphertext,
            NoParam, // No KeyParam for Caesar ciphers
            ScoreMethod::Quadgrams,
            26,
            &table,
        )
        .unwrap();

    for result in results.entries() {
        println!("{:?}: {}", result.score, result.buf.to_string());
    }

    assert!(results.get(0).buf == plaintext);
}

#[test]
fn brute_force_tries_each_shift_once_and_ranks_the_best_first() {
    let table = table_from_corpus(CORPUS);
    let ciphertext = Buffer::from_str(CIPHERTEXT).unwrap();
    let results = BruteForce::new()
        .crack_ciphertext::<Caesar>(ciphertext.clone(), NoParam, ScoreMethod::Quadgrams, 26, &table)
        .unwrap();
    assert_eq!(26, results.len());
    let mut seen = [0u32; 26];
    for entry in results.entries() {
        seen[entry.key.shift() as usize] += 1;
        let plain = entry.key.decrypt(ciphertext.clone()).unwrap();
        assert!(plain == entry.buf);
        assert_eq!(plain.score(ScoreMethod::Quadgrams, &table), entry.score);
    }
    assert_eq!([1u32; 26], seen);
    let mut best = MIN_SCORE;
    for shift in 0..26u8 {
        let plain = Caesar::new(shift).decrypt(ciphertext.clone()).unwrap();
        best = best.max(plain.score(ScoreMethod::Quadgrams, &table));
    }
    assert_eq!(best, results.get(0).score);
    assert_eq!(7, results.get(0).key.shift());
    for i in 1..results.len() {
        assert!(results.get(i - 1).score >= results.get(i).score);
    }
}

#[test]
fn brute_force_finds_the_plaintext_of_a_paragraph() {
    let table = table_from_corpus(CORPUS);
    let paragraph = "Sing long her way size. Waited end mutual missed myself the little sister \
                     one. So in pointed or chicken cheered neither spirits invited.";
    for shift in [1u8, 4, 13, 25] {
        let cipher = Caesar::new(shift)
            .encrypt(Buffer::from_str(paragraph).unwrap())
            .unwrap();
        let results = BruteForce::new()
            .crack_ciphertext::<Caesar>(cipher, NoParam, ScoreMethod::Quadgrams, 1, &table)
            .unwrap();
        assert_eq!(1, results.len());
        assert_eq!(paragraph, results.get(0).buf.to_string());
        assert_eq!(shift, results.get(0).key.shift());
    }
}

fn offer(list: &mut CrackResults<Caesar>, shift: u8, score: i128) {
    let buf = Caesar::new(shift)
        .decrypt(Buffer::from_str("abc").unwrap())
        .unwrap();
    list.insert(buf, Caesar::new(shift), score);
}

fn shifts(list: &CrackResults<Caesar>) -> Vec<u8> {
    list.entries().iter().map(|e| e.key.shift()).collect()
}

fn scores(list: &CrackResults<Caesar>) -> Vec<i128> {
    list.entries().iter().map(|e| e.score).collect()
}

#[test]
fn the_list_keeps_the_best_in_order() {
    let mut list: CrackResults<Caesar> = CrackResults::new(3);
    assert_eq!(0, list.len());
    offer(&mut list, 1, 50);
    offer(&mut list, 2, 30);
    offer(&mut list, 3, 40);
    assert_eq!(vec![1u8, 3, 2], shifts(&list));
    offer(&mut list, 4, 10);
    assert_eq!(vec![1u8, 3, 2], shifts(&list));
    offer(&mut list, 5, 30);
    assert_eq!(vec![1u8, 3, 2], shifts(&list));
    offer(&mut list, 6, 45);
    assert_eq!(vec![1u8, 6, 3], shifts(&list));
    assert_eq!(vec![50i128, 45, 40], scores(&list));
    offer(&mut list, 7, 90);
    assert_eq!(vec![7u8, 1, 6], shifts(&list));
    assert_eq!(3, list.len());
}

#[test]
fn the_list_takes_a_worse_candidate_while_there_is_room() {
    let mut list: CrackResults<Caesar> = CrackResults::new(4);
    offer(&mut list, 1, 50);
    offer(&mut list, 2, 20);
    offer(&mut list, 3, -5);
    assert_eq!(vec![1u8, 2, 3], shifts(&list));
}

#[test]
fn the_list_holds_no_key_twice() {
    let mut list: CrackResults<Caesar> = CrackResults::new(3);
    offer(&mut list, 1, 50);
    offer(&mut list, 1, 50);
    offer(&mut list, 1, 70);
    offer(&mut list, 1, 10);
    assert_eq!(vec![1u8], shifts(&list));
    assert_eq!(vec![50i128], scores(&list));
    offer(&mut list, 2, 60);
    offer(&mut list, 3, 55);
    offer(&mut list, 2, 99);
    assert_eq!(vec![2u8, 3, 1], shifts(&list));
    assert_eq!(vec![60i128, 55, 50], scores(&list));
}

#[test]
fn equal_scores_stay_in_the_order_of_arrival() {
    let mut list: CrackResults<Caesar> = CrackResults::new(4);
    offer(&mut list, 1, 5);
    offer(&mut list, 2, 5);
    offer(&mut list, 3, 9);
    offer(&mut list, 4, 5);
    assert_eq!(vec![3u8, 1, 2, 4], shifts(&list));
    offer(&mut list, 5, 5);
    assert_eq!(vec![3u8, 1, 2, 4], shifts(&list));
    offer(&mut list, 6, 7);
    assert_eq!(vec![3u8, 6, 1, 2], shifts(&list));
}

#[test]
fn a_candidate_that_cannot_be_scored_is_left_out() {
    let mut list: CrackResults<Caesar> = CrackResults::new(2);
    offer(&mut list, 1, MIN_SCORE);
    assert_eq!(0, list.len());
    offer(&mut list, 2, MIN_SCORE + 1);
    assert_eq!(vec![2u8], shifts(&list));
    let table = QuadgramTable::new(vec![0; QUADGRAM_ENTRIES]).unwrap();
    let score = list.process_result(
        Buffer::from_str("").unwrap(),
        Caesar::new(9),
        ScoreMethod::IOC,
        &table,
    );
    assert_eq!(MIN_SCORE, score);
    assert_eq!(vec![2u8], shifts(&list));
}

#[test]
fn a_list_for_one_keeps_the_best_only() {
    let mut list: CrackResults<Caesar> = CrackResults::new(1);
    offer(&mut list, 1, 1);
    offer(&mut list, 2, 3);
    offer(&mut list, 3, 2);
    offer(&mut list, 4, 3);
    assert_eq!(vec![2u8], shifts(&list));
}

#[test]
fn a_climb_step_resets_or_counts() {
    assert_eq!((true, 9, 0), climb_step(4, 9, 8));
    assert_eq!((false, 8, 5), climb_step(4, 8, 8));
    assert_eq!((false, 8, 1), climb_step(0, 7, 8));
}

fn climb(seed: u64, stop_after: usize, restarts: usize) -> Vec<(i128, String, String)> {
    let table = table_from_corpus(CORPUS);
    let key = Substitution::from_word("KAISER");
    let cipher = key
        .encrypt(Buffer::from_str(&PLAINTEXT[..120]).unwrap())
        .unwrap();
    let results = HillClimb::with_seed(stop_after, restarts, seed)
        .crack_ciphertext::<Substitution>(cipher, NoParam, ScoreMethod::Quadgrams, 5, &table)
        .unwrap();
    results
        .entries()
        .iter()
        .map(|e| (e.score, e.key.to_string(), e.buf.to_string()))
        .collect()
}

#[test]
fn hill_climbing_with_a_seed_repeats_itself() {
    let first = climb(42, 40, 3);
    let second = climb(42, 40, 3);
    assert!(!first.is_empty());
    assert!(first.len() <= 5);
    assert_eq!(first, second);
    for i in 1..first.len() {
        assert!(first[i - 1].0 >= first[i].0);
        assert!(first[i - 1].1 != first[i].1);
    }
}

#[test]
fn hill_climbing_without_restarts_finds_nothing() {
    assert!(climb(1, 10, 0).is_empty());
}

#[test]
fn hill_climbing_keeps_candidates_that_decrypt_the_text() {
    let table = table_from_corpus(CORPUS);
    let cipher = Caesar::new(3)
        .encrypt(Buffer::from_str("defend the east wall of the castle").unwrap())
        .unwrap();
    let results = HillClimb::new(30, 2, StdRng::from_entropy())
        .crack_ciphertext::<Caesar>(cipher.clone(), NoParam, ScoreMethod::ChiSquared, 4, &table)
        .unwrap();
    assert!(results.len() >= 1 && results.len() <= 4);
    for entry in results.entries() {
        assert!(entry.key.decrypt(cipher.clone()).unwrap() == entry.buf);
        assert_eq!(entry.buf.score(ScoreMethod::ChiSquared, &table), entry.score);
        assert!(entry.key.same_key(&entry.key.copy_key()));
    }
}

#[test]
fn a_search_draws_from_the_generator_it_is_given() {
    let table = table_from_corpus(CORPUS);
    let cipher = Substitution::from_word("KAISER")
        .encrypt(Buffer::from_str(&PLAINTEXT[..120]).unwrap())
        .unwrap();
    let results = HillClimb::new(40, 3, StdRng::seed_from_u64(42))
        .crack_ciphertext::<Substitution>(cipher, NoParam, ScoreMethod::Quadgrams, 5, &table)
        .unwrap();
    let given: Vec<(i128, String, String)> = results
        .entries()
        .iter()
        .map(|e| (e.score, e.key.to_string(), e.buf.to_string()))
        .collect();
    assert_eq!(climb(42, 40, 3), given);
    assert!(climb(42, 40, 3) != climb(43, 40, 3));
}

#[test]
fn a_climb_of_one_restart_tries_at_least_the_start() {
    let found = climb(5, 1, 1);
    assert!(!found.is_empty());
}
