use ethnum::U256;
use memmap::MmapMut;
use meshanina::{
    atomic_key, chunk_key, DbError, Mapping, Record, MAX_RECORD_BODYLEN, RECORD_SIZE,
};

fn table(slots: usize) -> Mapping {
    Mapping::new(MmapMut::map_anon(slots * RECORD_SIZE).unwrap()).unwrap()
}

fn reopen(m: Mapping) -> Mapping {
    m.flush().unwrap();
    Mapping::new(m.into_map()).unwrap()
}

fn home(dk: &[u8; 32], n: usize) -> usize {
    (u64::from_le_bytes(dk[0..8].try_into().unwrap()) % n as u64) as usize
}

fn find_slot(m: &Mapping, dk: &[u8; 32]) -> Option<usize> {
    (0..m.slot_count()).find(|s| {
        let r = m.read_slot(*s);
        r.validate().map(|r| r.has_key(dk)).unwrap_or(false)
    })
}

#[test]
fn db_simple() {
    let mut tab = table(4096);
    for ctr in 0u64..100 {
        let k = *blake3::hash(format!("key{}", ctr).as_bytes()).as_bytes();
        tab.insert(k, &ctr.to_le_bytes()).unwrap();
        let b = tab.get(k).unwrap();
        assert_eq!(&b[0..8], &ctr.to_le_bytes());
    }
}

#[test]
fn simple_insert_get() {
    let test_vector = b"[63] Super Sent., lib. 1 d. 1 q. 1 pr. Finito prooemio, hoc est initium praesentis operis in quo Magister divinorum nobis doctrinam tradere intendit quantum ad inquisitionem veritatis et destructionem erroris: unde et argumentativo modo procedit in toto opere: et praecipue argumentis ex auctoritatibus sumptis. Dividitur autem in duas partes: in quarum prima inquirit ea de quibus agendum est, et ordinem agendi; in secunda prosequitur suam intentionem: et in duas partes dividitur. Secunda ibi: hic considerandum est utrum virtutibus sit utendum, an fruendum. Ea autem de quibus in hac doctrina considerandum est, cadunt in considerationem hujus doctrinae, secundum quod ad aliquid unum referuntur, scilicet Deum, a quo et ad quem sunt. Et ideo ea de quibus agendum est dividit per absolutum et relatum: unde dividitur in partes duas. In prima ponit divisionem eorum de quibus agendum est per absolutum et relatum secundum cognitionem, in secunda secundum desiderium, ibi: id ergo in rebus considerandum. Circa primum duo facit. Primo ponit divisionem eorum de quibus agendum est, in res et signa, quae ad cognitionem rerum ducunt; secundo concludit ordinem agendi, ibi: cumque his intenderit theologorum speculatio studiosa atque modesta, divinam Scripturam formam praescriptam in doctrina tenere advertet. In primo tria facit. Primo ponit divisionem; secundo probat per auctoritatem, ibi: ut enim egregius doctor Augustinus ait; tertio ponit membrorum divisionis expositionem, ibi: proprie autem hic res appellantur quae non ad significandum aliquid adhibentur: ubi primo exponit quid sit res; secundo quid sit signum, ibi: signa vero quorum usus est in significando; tertio utriusque comparationem, ibi: omne igitur signum etiam res aliqua est. Id ergo in rebus considerandum est. Hic, dimissis signis, subdividit res per absolutum et relatum ex parte desiderii, scilicet per fruibile, quod propter se desideratur, et utibile, cujus desiderium ad aliud refertur: et dividitur in partes duas. Primo ponit divisionem; secundo epilogat et concludit intentionem et ordinem, ibi: omnium igitur quae dicta sunt, ex quo de rebus specialiter tractavimus, haec summa est. Prima in tres. Primo ponit divisionem; secundo partium manifestationem, ibi: illa quibus fruendum est, nos beatos faciunt; tertio movet dubitationes, ibi: cum autem homines, qui fruuntur et utuntur aliis rebus, res aliquae sint, quaeritur utrum se frui debeant, an uti, an utrumque. In secunda duo facit. Primo manifestat divisionem; secundo ponit quamdam contrarietatem, et solvit, ibi: notandum vero, quod idem Augustinus (...) sic dicit. Circa primum duo facit. Primo manifestat partes divisionis per definitiones; secundo quantum ad supposita, ibi: res igitur quibus fruendum est, sunt pater, et filius, et spiritus sanctus. Circa primum quatuor facit. Primo definit fruibilia per effectum; secundo utibilia, ibi: istis quibus utendum est, tendentes ad beatitudinem adjuvamur; tertio definit utentia, et fruentia ibi: res vero quae fruuntur et utuntur, nos sumus; quarto definit uti et frui ad probationem totius: frui autem est amore alicui rei inhaerere propter seipsam. Et eodem ordine procedit manifestando secundum supposita. Notandum vero, quod idem Augustinus (...) aliter quam supra accipiens frui et uti, sic dicit. Hic ponit contrarietatem ad haec tria. Primo ponit diversam assignationem uti et frui; secundo concludit contrarietatem ad praedicta, ibi: et attende, quod videtur Augustinus dicere illos frui tantum qui in re gaudent; tertio ponit solutionem, ibi: haec ergo quae sibi contradicere videntur, sic determinamus. Et primo solvit per divisionem; secundo per interemptionem, ibi: potest etiam dici, quod qui fruitur etiam in hac vita non tantum habet gaudium spei, sed etiam rei. Cum autem homines, qui fruuntur et utuntur aliis rebus, res aliquae sint, quaeritur, utrum se frui debeant, an uti, an utrumque. Hic movet dubitationes de habitudine eorum quae pertinent ad invicem: et primo quaerit de utentibus et fruentibus, an sint utibilia vel fruibilia; secundo de fruibilibus, scilicet de Deo, utrum sit utens nobis vel fruens, ibi: sed cum Deus diligat nos (...) quaerit Augustinus quomodo diligat, an ut utens, an ut fruens; tertio de quibusdam utibilibus, utrum sint fruibilia, ibi: hic considerandum est, utrum virtutibus sit utendum, an fruendum. Quaelibet harum partium dividitur in quaestionem et solutionem. Hic quaeruntur tria: primo, de uti et frui. Secundo, de utibilibus et fruibilibus. Tertio, de utentibus et fruentibus. Circa primum quaeruntur duo: 1 quid sit frui secundum rem; 2 quid sit uti secundum rem.
.";
    let mut mapping = table(4096);
    // first test a composite value
    mapping
        .insert(U256::from(0u32).to_le_bytes(), test_vector)
        .unwrap();
    assert_eq!(
        mapping.get(U256::from(0u32).to_le_bytes()).unwrap().as_ref(),
        &test_vector[..]
    );
    // then try to fill the db
    for i in 1u32..100 {
        mapping
            .insert(U256::from(i).to_le_bytes(), b"hello world")
            .unwrap();
        assert_eq!(
            mapping.get(U256::from(i).to_le_bytes()).unwrap().as_ref(),
            b"hello world"
        );
    }
}

#[test]
fn short_value_is_found_after_insert() {
    let mut m = table(64);
    let k = [1u8; 32];
    m.insert(k, b"short value").unwrap();
    assert_eq!(m.get(k).unwrap().as_ref(), b"short value");
    assert!(m.get([2u8; 32]).is_none());
}

#[test]
fn long_value_survives_flush_and_reopen() {
    let mut m = table(256);
    let k = [3u8; 32];
    let v: Vec<u8> = (0..5000u32).map(|i| (i * 7 % 251) as u8).collect();
    m.insert(k, &v).unwrap();
    let m = reopen(m);
    assert_eq!(m.get(k).unwrap().as_ref(), &v[..]);
}

#[test]
fn second_equal_insert_changes_nothing() {
    let mut m = table(256);
    let k = [4u8; 32];
    let v = vec![9u8; 3000];
    m.insert(k, &v).unwrap();
    let map = m.into_map();
    let before = map.to_vec();
    let mut m = Mapping::new(map).unwrap();
    m.insert(k, &v).unwrap();
    let map = m.into_map();
    assert!(map[..] == before[..]);
}

#[test]
fn corrupt_slot_on_probe_path_hides_the_key() {
    let mut m = table(16);
    let k = [5u8; 32];
    m.insert(k, b"value").unwrap();
    let ak = atomic_key(&k);
    let s = home(&ak, 16);
    let mut map = m.into_map();
    map[s * RECORD_SIZE + 50] ^= 0xff;
    let m = Mapping::new(map).unwrap();
    assert!(m.get(k).is_none());
    assert!(m.get_atomic(&ak).is_none());
}

#[test]
fn full_body_fits_one_record() {
    let mut m = table(64);
    let k = [6u8; 32];
    let v = vec![1u8; MAX_RECORD_BODYLEN];
    m.insert(k, &v).unwrap();
    let (body, length) = m.get_atomic(&atomic_key(&k)).unwrap();
    assert_eq!(length, MAX_RECORD_BODYLEN);
    assert_eq!(body, &v[..]);
    assert!(m.get_atomic(&chunk_key(&k, 0)).is_none());
    assert_eq!(m.get(k).unwrap().as_ref(), &v[..]);
}

#[test]
fn one_byte_more_is_chunked() {
    let mut m = table(64);
    let k = [7u8; 32];
    let v = vec![2u8; MAX_RECORD_BODYLEN + 1];
    m.insert(k, &v).unwrap();
    let (body, length) = m.get_atomic(&atomic_key(&k)).unwrap();
    assert_eq!(length, MAX_RECORD_BODYLEN + 1);
    assert!(body.iter().all(|b| *b == 0));
    assert_eq!(m.get_atomic(&chunk_key(&k, 0)).unwrap().1, MAX_RECORD_BODYLEN);
    assert_eq!(m.get_atomic(&chunk_key(&k, 1)).unwrap().1, 1);
    assert_eq!(m.get(k).unwrap().as_ref(), &v[..]);
}

#[test]
fn empty_value_is_stored_with_zero_length() {
    let mut m = table(64);
    let k = [8u8; 32];
    m.insert(k, &[]).unwrap();
    let (body, length) = m.get_atomic(&atomic_key(&k)).unwrap();
    assert_eq!(length, 0);
    assert!(body.is_empty());
    assert!(m.get(k).unwrap().is_empty());
}

#[test]
fn whole_multiple_gives_full_chunks() {
    let mut m = table(64);
    let k = [9u8; 32];
    let v: Vec<u8> = (0..3 * MAX_RECORD_BODYLEN).map(|i| (i % 256) as u8).collect();
    m.insert(k, &v).unwrap();
    assert_eq!(m.get_atomic(&atomic_key(&k)).unwrap().1, 3 * MAX_RECORD_BODYLEN);
    for i in 0..3u64 {
        let (body, length) = m.get_atomic(&chunk_key(&k, i)).unwrap();
        assert_eq!(length, MAX_RECORD_BODYLEN);
        let start = i as usize * MAX_RECORD_BODYLEN;
        assert_eq!(body, &v[start..start + MAX_RECORD_BODYLEN]);
    }
    assert!(m.get_atomic(&chunk_key(&k, 3)).is_none());
    assert_eq!(m.get(k).unwrap().as_ref(), &v[..]);
}

#[test]
fn probe_wraps_to_slot_zero() {
    let n = 4;
    let mut keys = (0u8..=255).map(|b| [b; 32]).filter(|k| home(&atomic_key(k), n) == n - 1);
    let k1 = keys.next().unwrap();
    let k2 = keys.next().unwrap();
    let mut m = table(n);
    m.insert(k1, b"first").unwrap();
    m.insert(k2, b"second").unwrap();
    assert_eq!(find_slot(&m, &atomic_key(&k1)), Some(n - 1));
    assert_eq!(find_slot(&m, &atomic_key(&k2)), Some(0));
    assert_eq!(m.get(k2).unwrap().as_ref(), b"second");
}

#[test]
fn hello_survives_reopen() {
    let mut m = table(1024);
    let k1 = [0u8; 32];
    m.insert(k1, b"hello").unwrap();
    assert_eq!(m.get(k1).unwrap().as_ref(), b"hello");
    let m = reopen(m);
    assert_eq!(m.get(k1).unwrap().as_ref(), b"hello");
}

#[test]
fn hello_twice_is_idempotent() {
    let mut m = table(1024);
    let k1 = [0u8; 32];
    m.insert(k1, b"hello").unwrap();
    m.insert(k1, b"hello").unwrap();
    assert_eq!(m.get(k1).unwrap().as_ref(), b"hello");
    let count = (0..m.slot_count())
        .filter(|s| m.read_slot(*s).validate().is_some())
        .count();
    assert_eq!(count, 1);
}

#[test]
fn two_thousand_bytes_in_three_chunks() {
    let mut m = table(1024);
    let k1 = [0u8; 32];
    let v = vec![b'a'; 2000];
    m.insert(k1, &v).unwrap();
    let got = m.get(k1).unwrap();
    assert_eq!(got.len(), 2000);
    assert!(got.iter().all(|b| *b == b'a'));
    let (body, length) = m.get_atomic(&atomic_key(&k1)).unwrap();
    assert_eq!(length, 2000);
    assert!(body.iter().all(|b| *b == 0));
    let lengths: Vec<usize> = (0..3u64)
        .map(|i| m.get_atomic(&chunk_key(&k1, i)).unwrap().1)
        .collect();
    assert_eq!(lengths, vec![728, 728, 544]);
}

#[test]
fn hundred_hashed_values() {
    let mut m = table(4096);
    let keys: Vec<[u8; 32]> = (0u32..100).map(|i| U256::from(i).to_le_bytes()).collect();
    let values: Vec<[u8; 32]> = (0..100)
        .map(|i| *blake3::hash(format!("v{}", i).as_bytes()).as_bytes())
        .collect();
    for (k, v) in keys.iter().zip(values.iter()) {
        m.insert(*k, v).unwrap();
    }
    for (k, v) in keys.iter().zip(values.iter()) {
        assert_eq!(m.get(*k).unwrap().as_ref(), &v[..]);
    }
}

#[test]
fn lost_chunk_is_not_found_until_reinserted() {
    let mut m = table(256);
    let k = [10u8; 32];
    let v: Vec<u8> = (0..3000u32).map(|i| (i % 253) as u8).collect();
    m.insert(k, &v).unwrap();
    m.flush().unwrap();
    let s = find_slot(&m, &chunk_key(&k, 1)).unwrap();
    let mut map = m.into_map();
    for b in &mut map[s * RECORD_SIZE..(s + 1) * RECORD_SIZE] {
        *b = 0;
    }
    let mut m = Mapping::new(map).unwrap();
    assert!(m.get(k).is_none());
    m.insert(k, &v).unwrap();
    assert_eq!(m.get(k).unwrap().as_ref(), &v[..]);
}

#[test]
fn full_table_reports_capacity() {
    let mut m = table(1);
    m.insert([11u8; 32], b"one").unwrap();
    assert!(matches!(m.insert([12u8; 32], b"two"), Err(DbError::Capacity)));
    assert_eq!(m.get([11u8; 32]).unwrap().as_ref(), b"one");
    assert!(m.get([12u8; 32]).is_none());
}

#[test]
fn map_shorter_than_a_slot_is_refused() {
    assert!(Mapping::new(MmapMut::map_anon(RECORD_SIZE - 1).unwrap()).is_none());
    assert_eq!(table(3).slot_count(), 3);
}

#[test]
fn wrong_chunk_length_is_not_found() {
    let mut m = table(256);
    let k = [13u8; 32];
    m.insert_atomic(&atomic_key(&k), &[], Some(1000)).unwrap();
    m.insert_atomic(&chunk_key(&k, 0), &[1u8; 728], None).unwrap();
    m.insert_atomic(&chunk_key(&k, 1), &[2u8; 100], None).unwrap();
    assert!(m.get(k).is_none());
}

#[test]
fn header_without_chunks_is_not_found() {
    let mut m = table(256);
    let k = [14u8; 32];
    m.insert_atomic(&atomic_key(&k), &[], Some(1000)).unwrap();
    assert!(m.get(k).is_none());
    assert!(m.get_atomic(&atomic_key(&k)).is_some());
}

#[test]
fn record_for_existing_key_is_not_replaced() {
    let mut m = table(64);
    let dk = [15u8; 32];
    m.insert_atomic(&dk, b"first", None).unwrap();
    m.insert_atomic(&dk, b"other", None).unwrap();
    assert_eq!(m.get_atomic(&dk).unwrap().0, b"first");
}

#[test]
fn read_slot_shows_the_written_record() {
    let mut m = table(8);
    let dk = [16u8; 32];
    m.insert_atomic(&dk, b"xyz", None).unwrap();
    let s = home(&dk, 8);
    let r = m.read_slot(s).validate().unwrap();
    assert_eq!(r.key(), dk);
    assert_eq!(r.value(), b"xyz");
    let raw = m.read_slot(s).0.to_vec();
    assert!(Record(&raw).validate().is_some());
}
