use procon2022_comp_2nd::audio_vec::owned::pixel::{Pixel, M1M2};
use procon2022_comp_2nd::audio_vec::owned::Owned;
use procon2022_comp_2nd::audio_vec::AudioVec;
use procon2022_comp_2nd::precalc::Precalculation;
use procon2022_comp_2nd::request::{Answer, Problem};
use procon2022_comp_2nd::solve::card_voice::CardVoiceIndex;
use procon2022_comp_2nd::solve::{InspectPoint, Loss, SolveError};

fn tone(seed: u64, len: usize) -> Vec<i16> {
    let mut state = seed;
    (0..len)
        .map(|_| {
            state = state.wrapping_mul(6364136223846793005).wrapping_add(1442695040888963407);
            ((state >> 40) % 2001) as i16 - 1000
        })
        .collect()
}

fn mixture(voices: &[(&[i16], isize)], len: usize) -> Vec<i16> {
    (0..len as isize)
        .map(|t| {
            let mut sum = 0i32;
            for (voice, delay) in voices {
                let i = t - delay;
                if 0 <= i && (i as usize) < voice.len() {
                    sum += voice[i as usize] as i32;
                }
            }
            sum.clamp(i16::MIN as i32, i16::MAX as i32) as i16
        })
        .collect()
}

fn distance(x: &[i16], s: &[i16], w: isize) -> u64 {
    let mut sum = 0i64;
    for t in 0..x.len() as isize {
        let i = t - w;
        let v = if 0 <= i && (i as usize) < s.len() { s[i as usize] as i64 } else { 0 };
        let d = x[t as usize] as i64 - v;
        sum += d * d;
    }
    sum as u64
}

#[test]
fn card_voice_index() {
    let all = CardVoiceIndex::all();
    assert_eq!(all.len(), 88);
    assert_eq!(all[0], CardVoiceIndex::new(0));
    assert_eq!(all[87].index(), 87);
    assert_eq!(CardVoiceIndex::new(0).label(), "E01");
    assert_eq!(CardVoiceIndex::new(43).label(), "E44");
    assert_eq!(CardVoiceIndex::new(44).label(), "J01");
    assert_eq!(CardVoiceIndex::new(87).label(), "J44");
    assert_eq!(CardVoiceIndex::new(0).into_answer_string(), "1");
    assert_eq!(CardVoiceIndex::new(8).into_answer_string(), "9");
    assert_eq!(CardVoiceIndex::new(9).into_answer_string(), "10");
    assert_eq!(CardVoiceIndex::new(43).into_answer_string(), "44");
    assert_eq!(CardVoiceIndex::new(44).into_answer_string(), "1");
    assert_eq!(CardVoiceIndex::new(87).into_answer_string(), "44");
}

#[test]
fn precalculation_holds_running_sums() {
    let voices = vec![Owned::from_pcm(&[3, -4, 5]), Owned::new()];
    let table = Precalculation::new(&voices);
    let first = CardVoiceIndex::new(0);
    assert_eq!(table.get(first, -1), Pixel::zero());
    assert_eq!(table.get(first, 0).as_u64(), 9);
    assert_eq!(table.get(first, 1).as_u64(), 25);
    assert_eq!(table.get(first, 2).as_u64(), 50);
    assert_eq!(table.get(first, 3).as_u64(), 0);
    assert_eq!(table.get(CardVoiceIndex::new(1), 0).as_u64(), 0);
}

#[test]
fn evaluate_gives_the_squared_distance() {
    let a = tone(1, 120);
    let x = mixture(&[(&a, 7)], 60);
    let loss = Loss::new(vec![Owned::from_pcm(&a)]);
    assert_eq!(loss.voice_count(), 1);
    let point = loss.evaluate(&Owned::from_pcm(&x), CardVoiceIndex::new(0));
    assert_eq!(point.using_voice, CardVoiceIndex::new(0));
    assert_eq!(point.delay, 7);
    assert_eq!(point.score, Some(0));
    // the least delay with the least distance, over the whole range
    let b = tone(2, 50);
    let y = tone(3, 30);
    let loss = Loss::new(vec![Owned::from_pcm(&b)]);
    let point = loss.evaluate(&Owned::from_pcm(&y), CardVoiceIndex::new(0));
    let mut best = (u64::MAX, 0);
    for w in -30..20 {
        let d = distance(&y, &b, w);
        if d < best.0 {
            best = (d, w);
        }
    }
    assert_eq!(point.score, Some(best.0 % M1M2));
    assert_eq!(point.delay, best.1);
}

#[test]
fn evaluate_of_an_empty_voice() {
    let loss = Loss::new(vec![Owned::new()]);
    let point = loss.evaluate(&Owned::from_pcm(&[1, 2, 3]), CardVoiceIndex::new(0));
    assert_eq!(point.score, None);
    assert_eq!(point.delay, 0);
}

#[test]
fn rank_orders_by_loss() {
    let a = tone(1, 90);
    let b = tone(2, 90);
    let c = tone(3, 90);
    let x = mixture(&[(&b, 3)], 50);
    let loss = Loss::new(vec![Owned::from_pcm(&a), Owned::from_pcm(&b), Owned::from_pcm(&c)]);
    let points = loss.rank(&Owned::from_pcm(&x));
    assert_eq!(points.len(), 3);
    assert_eq!(points[0].using_voice, CardVoiceIndex::new(1));
    assert_eq!(points[0].delay, 3);
    assert_eq!(points[0].score, Some(0));
    assert!(points[0].score <= points[1].score && points[1].score <= points[2].score);
}

#[test]
fn find_points_recovers_two_voices() {
    let a = tone(11, 600);
    let b = tone(22, 600);
    let c = tone(33, 600);
    let x = mixture(&[(&a, 100), (&c, -50)], 400);
    let problem = Owned::from_pcm(&x);
    let loss = Loss::new(vec![Owned::from_pcm(&a), Owned::from_pcm(&b), Owned::from_pcm(&c)]);
    let answer = loss.find_points(&problem, 2).unwrap();
    assert_eq!(answer.len(), 2);
    let mut found: Vec<(u8, isize)> = answer.iter().map(|p| (p.using_voice.index(), p.delay)).collect();
    found.sort();
    assert_eq!(found, vec![(0, 100), (2, -50)]);
    assert!(loss.validate(&problem, &answer));
}

#[test]
fn validate_accepts_only_the_right_answer() {
    let a = tone(11, 300);
    let b = tone(22, 300);
    let x = mixture(&[(&a, 10), (&b, -20)], 200);
    let problem = Owned::from_pcm(&x);
    let loss = Loss::new(vec![Owned::from_pcm(&a), Owned::from_pcm(&b)]);
    let point = |voice: u8, delay: isize| InspectPoint {
        using_voice: CardVoiceIndex::new(voice),
        delay,
        score: None,
    };
    assert!(loss.validate(&problem, &vec![point(0, 10), point(1, -20)]));
    assert!(loss.validate(&problem, &vec![point(1, -20), point(0, 10)]));
    assert!(!loss.validate(&problem, &vec![point(0, 11), point(1, -20)]));
    assert!(!loss.validate(&problem, &vec![point(0, 10)]));
    assert!(!loss.validate(&problem, &vec![]));
}

#[test]
fn validate_clips_the_sum() {
    let a = vec![30000i16; 50];
    let b = vec![30000i16; 50];
    let x = mixture(&[(&a, 0), (&b, 0)], 50);
    assert_eq!(x[0], 32767);
    let loss = Loss::new(vec![Owned::from_pcm(&a), Owned::from_pcm(&b)]);
    let point = |voice: u8| InspectPoint { using_voice: CardVoiceIndex::new(voice), delay: 0, score: None };
    assert!(loss.validate(&Owned::from_pcm(&x), &vec![point(0), point(1)]));
}

#[test]
fn choose_answer_replaces_one_placement() {
    let a = tone(11, 300);
    let b = tone(22, 300);
    let c = tone(33, 300);
    let x = mixture(&[(&a, 10), (&c, -20)], 200);
    let problem = Owned::from_pcm(&x);
    let loss = Loss::new(vec![Owned::from_pcm(&a), Owned::from_pcm(&b), Owned::from_pcm(&c)]);
    let point = |voice: u8, delay: isize| InspectPoint {
        using_voice: CardVoiceIndex::new(voice),
        delay,
        score: None,
    };
    // a ranking whose second place is wrong: the third replaces it
    let points = vec![point(0, 10), point(1, 0), point(2, -20)];
    let answer = loss.choose_answer(&problem, &points, 2).unwrap();
    assert_eq!(answer, vec![point(0, 10), point(2, -20)]);
    // nothing validates
    let points = vec![point(1, 0), point(1, 5), point(1, 9)];
    assert_eq!(loss.choose_answer(&problem, &points, 2), Err(SolveError::NoAnswer));
}

#[test]
fn answer_names_cards_by_number() {
    let points = vec![
        InspectPoint { using_voice: CardVoiceIndex::new(0), delay: 0, score: None },
        InspectPoint { using_voice: CardVoiceIndex::new(50), delay: 3, score: Some(1) },
    ];
    let answer = Answer::new("problem".to_string(), &points);
    assert_eq!(answer.problem_id, "problem");
    assert_eq!(answer.answers, vec!["1".to_string(), "7".to_string()]);
    let problem = Problem { id: "p".to_string(), chunks: 2, start_at: 0, time_limit: 10, data: 3 };
    assert_eq!(problem.voices(), 3);
}

#[test]
fn to_owned_of_a_sum_of_delays() {
    let a = Owned::from_pcm(&[1, 2, 3]).delay(1);
    let sum = Owned::new().add(a).to_owned(5);
    let got: Vec<u64> = (0..5).map(|i| sum.get(i).unwrap().as_u64()).collect();
    assert_eq!(got, vec![0, 1, 2, 3, 0]);
}
