//! Pinyin conversion on a small dictionary.

use fastrans::lexicon::{pack, pack_initials, parse_dict, Entry};
use fastrans::pinyin::{run_start, user_boost, Analysis, PinyinDict, MAX_CANDIDATES};
use fastrans::userdict::UserDict;

/// One character per syllable, and some words, with their frequencies.
const DICT: &str = "啊\t500\ta\n\
     爱\t500\tai\n\
     安\t500\tan\n\
     昂\t500\tang\n\
     奥\t500\tao\n\
     把\t500\tba\n\
     白\t500\tbai\n\
     办\t500\tban\n\
     帮\t500\tbang\n\
     包\t500\tbao\n\
     被\t500\tbei\n\
     本\t500\tben\n\
     崩\t500\tbeng\n\
     比\t500\tbi\n\
     边\t500\tbian\n\
     表\t500\tbiao\n\
     别\t500\tbie\n\
     宾\t500\tbin\n\
     病\t500\tbing\n\
     波\t500\tbo\n\
     不\t20000\tbu\n\
     擦\t500\tca\n\
     才\t500\tcai\n\
     参\t500\tcan\n\
     藏\t500\tcang\n\
     草\t500\tcao\n\
     测\t500\tce\n\
     岑\t500\tcen\n\
     层\t500\tceng\n\
     查\t500\tcha\n\
     差\t500\tchai\n\
     产\t500\tchan\n\
     长\t500\tchang\n\
     超\t500\tchao\n\
     车\t500\tche\n\
     陈\t500\tchen\n\
     成\t500\tcheng\n\
     吃\t2000\tchi\n\
     冲\t500\tchong\n\
     抽\t500\tchou\n\
     出\t500\tchu\n\
     揣\t500\tchuai\n\
     穿\t500\tchuan\n\
     窗\t500\tchuang\n\
     吹\t500\tchui\n\
     春\t500\tchun\n\
     戳\t500\tchuo\n\
     次\t500\tci\n\
     从\t500\tcong\n\
     凑\t500\tcou\n\
     粗\t500\tcu\n\
     窜\t500\tcuan\n\
     催\t500\tcui\n\
     村\t500\tcun\n\
     错\t500\tcuo\n\
     大\t7000\tda\n\
     带\t500\tdai\n\
     但\t500\tdan\n\
     当\t500\tdang\n\
     到\t8000\tdao\n\
     的\t60000\tde\n\
     得\t500\tdei\n\
     扽\t500\tden\n\
     等\t500\tdeng\n\
     地\t500\tdi\n\
     点\t500\tdian\n\
     掉\t500\tdiao\n\
     跌\t500\tdie\n\
     定\t500\tding\n\
     丢\t500\tdiu\n\
     东\t500\tdong\n\
     都\t500\tdou\n\
     读\t500\tdu\n\
     段\t500\tduan\n\
     对\t500\tdui\n\
     吨\t500\tdun\n\
     多\t500\tduo\n\
     饿\t500\te\n\
     诶\t500\tei\n\
     恩\t500\ten\n\
     二\t500\ter\n\
     发\t500\tfa\n\
     饭\t500\tfan\n\
     方\t500\tfang\n\
     非\t500\tfei\n\
     分\t500\tfen\n\
     风\t500\tfeng\n\
     佛\t500\tfo\n\
     否\t500\tfou\n\
     父\t500\tfu\n\
     嘎\t500\tga\n\
     该\t500\tgai\n\
     干\t500\tgan\n\
     刚\t500\tgang\n\
     高\t500\tgao\n\
     个\t9000\tge\n\
     给\t500\tgei\n\
     跟\t500\tgen\n\
     更\t500\tgeng\n\
     工\t500\tgong\n\
     够\t500\tgou\n\
     古\t500\tgu\n\
     瓜\t500\tgua\n\
     怪\t500\tguai\n\
     关\t500\tguan\n\
     光\t500\tguang\n\
     贵\t500\tgui\n\
     滚\t500\tgun\n\
     国\t500\tguo\n\
     哈\t500\tha\n\
     还\t500\thai\n\
     汉\t500\than\n\
     行\t500\thang\n\
     好\t500\thao\n\
     和\t14000\the\n\
     黑\t500\thei\n\
     很\t500\then\n\
     横\t500\theng\n\
     红\t500\thong\n\
     后\t500\thou\n\
     湖\t500\thu\n\
     话\t500\thua\n\
     坏\t500\thuai\n\
     换\t500\thuan\n\
     黄\t500\thuang\n\
     会\t500\thui\n\
     混\t500\thun\n\
     或\t500\thuo\n\
     几\t500\tji\n\
     家\t500\tjia\n\
     见\t500\tjian\n\
     将\t500\tjiang\n\
     叫\t500\tjiao\n\
     接\t500\tjie\n\
     进\t500\tjin\n\
     经\t500\tjing\n\
     窘\t500\tjiong\n\
     就\t500\tjiu\n\
     句\t500\tju\n\
     卷\t500\tjuan\n\
     觉\t500\tjue\n\
     军\t500\tjun\n\
     卡\t500\tka\n\
     开\t500\tkai\n\
     看\t500\tkan\n\
     抗\t500\tkang\n\
     考\t500\tkao\n\
     可\t500\tke\n\
     肯\t500\tken\n\
     坑\t500\tkeng\n\
     空\t500\tkong\n\
     口\t500\tkou\n\
     苦\t500\tku\n\
     夸\t500\tkua\n\
     快\t500\tkuai\n\
     宽\t500\tkuan\n\
     矿\t500\tkuang\n\
     亏\t500\tkui\n\
     困\t500\tkun\n\
     扩\t500\tkuo\n\
     拉\t500\tla\n\
     来\t6000\tlai\n\
     蓝\t500\tlan\n\
     浪\t500\tlang\n\
     老\t500\tlao\n\
     了\t30000\tle\n\
     类\t500\tlei\n\
     冷\t500\tleng\n\
     里\t500\tli\n\
     俩\t500\tlia\n\
     连\t500\tlian\n\
     两\t500\tliang\n\
     料\t500\tliao\n\
     列\t500\tlie\n\
     林\t500\tlin\n\
     零\t500\tling\n\
     六\t500\tliu\n\
     龙\t500\tlong\n\
     楼\t500\tlou\n\
     路\t500\tlu\n\
     乱\t500\tluan\n\
     论\t500\tlun\n\
     落\t500\tluo\n\
     绿\t500\tlv\n\
     略\t500\tlve\n\
     吗\t500\tma\n\
     买\t500\tmai\n\
     慢\t500\tman\n\
     忙\t500\tmang\n\
     猫\t500\tmao\n\
     么\t500\tme\n\
     没\t500\tmei\n\
     们\t500\tmen\n\
     梦\t500\tmeng\n\
     米\t500\tmi\n\
     面\t500\tmian\n\
     秒\t500\tmiao\n\
     灭\t500\tmie\n\
     民\t500\tmin\n\
     明\t500\tming\n\
     谬\t500\tmiu\n\
     莫\t500\tmo\n\
     某\t500\tmou\n\
     木\t500\tmu\n\
     那\t500\tna\n\
     奶\t500\tnai\n\
     难\t500\tnan\n\
     囊\t500\tnang\n\
     脑\t500\tnao\n\
     呢\t500\tne\n\
     内\t500\tnei\n\
     嫩\t500\tnen\n\
     能\t500\tneng\n\
     你\t12000\tni\n\
     年\t500\tnian\n\
     娘\t500\tniang\n\
     鸟\t500\tniao\n\
     捏\t500\tnie\n\
     您\t500\tnin\n\
     宁\t500\tning\n\
     牛\t500\tniu\n\
     农\t500\tnong\n\
     怒\t500\tnu\n\
     暖\t500\tnuan\n\
     诺\t500\tnuo\n\
     女\t500\tnv\n\
     虐\t500\tnve\n\
     哦\t500\to\n\
     欧\t500\tou\n\
     怕\t500\tpa\n\
     排\t500\tpai\n\
     盘\t500\tpan\n\
     旁\t500\tpang\n\
     跑\t500\tpao\n\
     陪\t500\tpei\n\
     喷\t500\tpen\n\
     朋\t500\tpeng\n\
     皮\t500\tpi\n\
     片\t500\tpian\n\
     票\t500\tpiao\n\
     撇\t500\tpie\n\
     品\t500\tpin\n\
     平\t500\tping\n\
     破\t500\tpo\n\
     剖\t500\tpou\n\
     普\t500\tpu\n\
     七\t500\tqi\n\
     恰\t500\tqia\n\
     钱\t500\tqian\n\
     强\t500\tqiang\n\
     桥\t500\tqiao\n\
     切\t500\tqie\n\
     亲\t500\tqin\n\
     请\t500\tqing\n\
     穷\t500\tqiong\n\
     求\t500\tqiu\n\
     去\t5000\tqu\n\
     全\t500\tquan\n\
     却\t500\tque\n\
     群\t500\tqun\n\
     然\t500\tran\n\
     让\t500\trang\n\
     绕\t500\trao\n\
     热\t500\tre\n\
     人\t500\tren\n\
     扔\t500\treng\n\
     日\t500\tri\n\
     容\t500\trong\n\
     肉\t500\trou\n\
     如\t500\tru\n\
     软\t500\truan\n\
     瑞\t500\trui\n\
     润\t500\trun\n\
     若\t500\truo\n\
     撒\t500\tsa\n\
     赛\t500\tsai\n\
     三\t500\tsan\n\
     桑\t500\tsang\n\
     扫\t500\tsao\n\
     色\t500\tse\n\
     森\t500\tsen\n\
     僧\t500\tseng\n\
     杀\t500\tsha\n\
     晒\t500\tshai\n\
     山\t500\tshan\n\
     上\t500\tshang\n\
     少\t500\tshao\n\
     社\t500\tshe\n\
     谁\t500\tshei\n\
     身\t500\tshen\n\
     生\t500\tsheng\n\
     是\t25000\tshi\n\
     手\t500\tshou\n\
     书\t500\tshu\n\
     刷\t500\tshua\n\
     帅\t500\tshuai\n\
     拴\t500\tshuan\n\
     双\t500\tshuang\n\
     水\t500\tshui\n\
     顺\t500\tshun\n\
     说\t500\tshuo\n\
     四\t500\tsi\n\
     送\t500\tsong\n\
     搜\t500\tsou\n\
     苏\t500\tsu\n\
     算\t500\tsuan\n\
     岁\t500\tsui\n\
     孙\t500\tsun\n\
     所\t500\tsuo\n\
     他\t9000\tta\n\
     太\t500\ttai\n\
     谈\t500\ttan\n\
     糖\t500\ttang\n\
     套\t500\ttao\n\
     特\t500\tte\n\
     疼\t500\tteng\n\
     提\t500\tti\n\
     天\t500\ttian\n\
     条\t500\ttiao\n\
     铁\t500\ttie\n\
     听\t500\tting\n\
     同\t500\ttong\n\
     头\t500\ttou\n\
     图\t500\ttu\n\
     团\t500\ttuan\n\
     推\t500\ttui\n\
     吞\t500\ttun\n\
     脱\t500\ttuo\n\
     哇\t500\twa\n\
     外\t500\twai\n\
     万\t500\twan\n\
     王\t500\twang\n\
     为\t500\twei\n\
     问\t500\twen\n\
     翁\t500\tweng\n\
     我\t30000\two\n\
     五\t500\twu\n\
     西\t500\txi\n\
     下\t500\txia\n\
     先\t500\txian\n\
     想\t3000\txiang\n\
     小\t500\txiao\n\
     写\t500\txie\n\
     新\t500\txin\n\
     星\t500\txing\n\
     熊\t500\txiong\n\
     修\t500\txiu\n\
     需\t500\txu\n\
     选\t500\txuan\n\
     学\t500\txue\n\
     寻\t500\txun\n\
     呀\t500\tya\n\
     眼\t500\tyan\n\
     样\t500\tyang\n\
     要\t500\tyao\n\
     也\t500\tye\n\
     一\t20000\tyi\n\
     因\t500\tyin\n\
     应\t500\tying\n\
     哟\t500\tyo\n\
     用\t500\tyong\n\
     有\t12000\tyou\n\
     鱼\t500\tyu\n\
     元\t500\tyuan\n\
     月\t500\tyue\n\
     云\t500\tyun\n\
     咂\t500\tza\n\
     在\t15000\tzai\n\
     赞\t500\tzan\n\
     脏\t500\tzang\n\
     早\t500\tzao\n\
     则\t500\tze\n\
     贼\t500\tzei\n\
     怎\t500\tzen\n\
     增\t500\tzeng\n\
     炸\t500\tzha\n\
     摘\t500\tzhai\n\
     站\t500\tzhan\n\
     张\t500\tzhang\n\
     找\t500\tzhao\n\
     这\t10000\tzhe\n\
     真\t500\tzhen\n\
     正\t500\tzheng\n\
     只\t500\tzhi\n\
     中\t500\tzhong\n\
     周\t500\tzhou\n\
     住\t500\tzhu\n\
     抓\t500\tzhua\n\
     拽\t500\tzhuai\n\
     转\t500\tzhuan\n\
     装\t500\tzhuang\n\
     追\t500\tzhui\n\
     准\t500\tzhun\n\
     桌\t500\tzhuo\n\
     子\t500\tzi\n\
     总\t500\tzong\n\
     走\t500\tzou\n\
     组\t500\tzu\n\
     钻\t500\tzuan\n\
     最\t500\tzui\n\
     尊\t500\tzun\n\
     做\t500\tzuo\n\
     你好\t800\tni'hao\n\
     今天\t3000\tjin'tian\n\
     什么\t6000\tshen'me\n\
     可能\t3000\tke'neng\n\
     三个\t900\tsan'ge\n\
     技能\t300\tji'neng\n\
     蛋糕\t200\tdan'gao\n\
     我们\t12000\two'men\n\
     到了\t2000\tdao'le\n\
     吃饭\t500\tchi'fan\n\
     西安\t300\txi'an\n\
     回来\t1500\thui'lai\n\
     等我\t150\tdeng'wo\n\
     北京\t2500\tbei'jing\n\
     怎么办\t900\tzen'me'ban\n\
     狮子\t100\tshi'zi\n\
     十字\t150\tshi'zi\n\
     试\t300\tshi\n\
     时\t2500\tshi\n\
     事\t2400\tshi\n\
     高兴\t700\tgao'xing\n\
     中华人民共和国\t300\tzhong'hua'ren'min'gong'he'guo\n";

/// The dictionary of a text: log-probabilities in units of 2^-52.
fn load(text: &str) -> PinyinDict {
    let lines = parse_dict(text);
    let mut rows = Vec::new();
    let mut total = 0.0_f64;
    for l in lines {
        let Ok(freq) = l.freq.parse::<f64>() else {
            continue;
        };
        let freq = freq.max(f64::MIN_POSITIVE);
        total += freq;
        rows.push((l.word, freq.ln(), l.syls));
    }
    let ln_total = total.ln();
    let mut entries = Vec::new();
    for (word, ln, syls) in rows {
        let score = ((ln - ln_total) * 4503599627370496.0) as i64;
        entries.push(Entry { word, score, syls });
    }
    PinyinDict::load(&entries)
}

fn dict() -> PinyinDict {
    load(DICT)
}

#[test]
fn converts_common_pinyin() {
    let dict = dict();
    let user = UserDict::default();
    assert!(dict.syllable_count() > 300);

    let a = dict.analyze("nihao", &user);
    assert_eq!(a.candidates[0].text, "你好");
    assert_eq!(a.candidates[0].consumed_bytes, 5);

    let a = dict.analyze("jintianchileshenme", &user);
    assert!(a.best_line.contains("今天"), "got {}", a.best_line);
    assert!(a.best_line.contains("什么"), "got {}", a.best_line);

    // A trailing single letter converts as an initial instead of dangling as a
    // raw letter.
    let a = dict.analyze("nihaoq", &user);
    assert!(a.best_line.starts_with("你好"), "got {}", a.best_line);
    assert!(
        !a.best_line.contains(|c: char| c.is_ascii_alphabetic()),
        "got {}",
        a.best_line
    );

    // Apostrophe forces a split: xi'an vs xian.
    let a = dict.analyze("xi'an", &user);
    assert_eq!(a.candidates[0].text, "西安");

    // Non-pinyin input passes through unharmed.
    let a = dict.analyze("nǐhǎo", &user);
    assert_eq!(a.best_line, "nǐhǎo");
    assert!(a.candidates.is_empty());
}

#[test]
fn segmentation_ties_use_word_scores() {
    // These all have an equal-syllable-count wrong split that a greedy
    // segmenter picks; the joint search must choose the common word.
    let dict = dict();
    let user = UserDict::default();
    for (input, expect) in [
        ("keneng", "可能"),
        ("sange", "三个"),
        ("jineng", "技能"),
        ("dangao", "蛋糕"),
    ] {
        let a = dict.analyze(input, &user);
        assert_eq!(a.best_line, expect, "input {input}");
    }
}

#[test]
fn sentence_jianpin_and_mixed() {
    let dict = dict();
    let user = UserDict::default();
    // Whole-sentence initials.
    let a = dict.analyze("wmdl", &user);
    assert_eq!(a.best_line, "我们到了", "wmdl -> {}", a.best_line);
    // The conversion path exposes (word, span) pairs for learning.
    let path: Vec<(&str, usize, usize)> =
        a.path.iter().map(|(w, s, e)| (w.as_str(), *s, *e)).collect();
    assert_eq!(path, vec![("我们", 0, 2), ("到了", 2, 4)]);
    // Initials mixed with full pinyin.
    let a = dict.analyze("wbuxiangquchifan", &user);
    assert_eq!(a.best_line, "我不想去吃饭", "got {}", a.best_line);
    // Full-pinyin parses still beat initials.
    let a = dict.analyze("nihao", &user);
    assert_eq!(a.best_line, "你好");
    let a = dict.analyze("jintianchileshenme", &user);
    assert!(a.best_line.contains("今天"), "got {}", a.best_line);
    // Uppercase input is literal, never converted by initials.
    let a = dict.analyze("GPT", &user);
    assert!(!a.best_line.contains(|c: char| c > '\u{7f}'), "got {}", a.best_line);
}

#[test]
fn jianpin_abbreviations() {
    let dict = dict();
    let user = UserDict::default();
    for (jp, expect) in [("hl", "回来"), ("dw", "等我"), ("bj", "北京"), ("zmb", "怎么办")] {
        let a = dict.analyze(jp, &user);
        assert!(
            a.candidates.iter().any(|c| c.text == expect),
            "{jp}: {expect} not in {:?}",
            a.candidates.iter().take(8).map(|c| &c.text).collect::<Vec<_>>()
        );
        // Pure initials drive the whole-line preview to a real word.
        assert!(!a.best_line.contains(|c: char| c.is_ascii_alphabetic()), "{jp} -> {}", a.best_line);
    }
    // Memory personalizes initials exactly like full pinyin.
    let mut user = UserDict::default();
    user.record_pick("hl", "回来", None);
    let a = dict.analyze("hl", &user);
    assert_eq!(a.candidates[0].text, "回来");
    assert_eq!(a.best_line, "回来");
    // Full-pinyin runs keep their normal candidates first.
    let a = dict.analyze("nihao", &UserDict::default());
    assert_eq!(a.candidates[0].text, "你好");
}

#[test]
fn user_memory_ranks_first() {
    let dict = dict();
    let mut user = UserDict::default();
    user.record_pick("shizi", "狮子", None);
    user.record_pick("shizi", "狮子", None);
    // Remembered pick outranks whatever the dictionary prefers.
    let a = dict.analyze("shizi", &user);
    assert_eq!(a.candidates[0].text, "狮子");
    // While more pinyin follows, the whole-line conversion stays first, with
    // the remembered word right behind it.
    let a = dict.analyze("shizihen", &user);
    assert!(a.candidates[0].text.starts_with("狮子"), "got {:?}", a.candidates[0]);
    assert!(
        a.candidates[1..3]
            .iter()
            .any(|c| c.text == "狮子" && c.consumed_bytes == 5),
        "got {:?}",
        &a.candidates[..3]
    );
    // Heavy use also biases whole-line conversion.
    let mut heavy = UserDict::default();
    for _ in 0..200 {
        heavy.record_pick("shi", "试", None);
    }
    let a = dict.analyze("shi", &heavy);
    assert_eq!(a.candidates[0].text, "试");
}

#[test]
fn whole_line_candidate_is_a_sentence() {
    let dict = dict();
    let a = dict.analyze("jintiangaoxing", &UserDict::default());
    assert_eq!(a.candidates[0].text, "今天高兴");
    assert_eq!(a.candidates[0].consumed_bytes, 14);
    assert!(a.candidates[0].sentence);
    assert_eq!(a.candidates[1].text, "今天");
    assert_eq!(a.candidates[1].consumed_bytes, 7);
    assert!(!a.candidates[1].sentence);
    assert_eq!(
        a.path,
        vec![("今天".to_string(), 0, 7), ("高兴".to_string(), 7, 14)]
    );
}

#[test]
fn candidates_are_capped_and_distinct() {
    let dict = dict();
    let mut text = String::new();
    for i in 0..60 {
        text.push_str(&format!("字{i}\t{}\tyi\n", 1000 - i));
    }
    for i in 0..60 {
        text.push_str(&format!("词{i}\t{}\tyi'yi\n", 1000 - i));
    }
    for i in 0..60 {
        text.push_str(&format!("语{i}\t{}\tyi'yi'yi\n", 1000 - i));
    }
    for i in 0..60 {
        text.push_str(&format!("言{i}\t{}\tyi'yi'yi'yi\n", 1000 - i));
    }
    for i in 0..60 {
        text.push_str(&format!("话{i}\t{}\tyi'yi'yi'yi'yi\n", 1000 - i));
    }
    let many = load(&text);
    let a = many.analyze("yiyiyiyiyi", &UserDict::default());
    assert_eq!(a.candidates.len(), 42);
    assert!(a.candidates.len() <= MAX_CANDIDATES);
    // The reading that covers everything offers ten words, the others eight.
    assert_eq!(a.candidates[0].text, "话0");
    assert_eq!(a.candidates[9].text, "话9");
    assert_eq!(a.candidates[10].text, "言0");
    assert_eq!(a.candidates[17].text, "言7");
    assert_eq!(a.candidates[18].text, "语0");
    let a = dict.analyze("shi", &UserDict::default());
    for i in 0..a.candidates.len() {
        for k in 0..i {
            assert_ne!(a.candidates[i].text, a.candidates[k].text);
        }
    }
}

#[test]
fn letters_without_words_stay_letters() {
    let dict = load("你好\t10\tni'hao\n");
    let user = UserDict::default();
    // "ni" is a syllable, but no word: it is kept as letters, and a line with
    // letters is not offered.
    let a = dict.analyze("nini", &user);
    assert_eq!(a.best_line, "nini");
    assert!(a.path.is_empty());
    assert!(a.candidates.is_empty());
    // What cannot be read stays behind the line, without leading apostrophes.
    let a = dict.analyze("nihao''xyz", &user);
    assert_eq!(a.best_line, "你好xyz");
    assert_eq!(a.candidates[0].text, "你好");
    assert_eq!(a.candidates[0].consumed_bytes, 7);
    // Runs are lower-cased.
    let a = dict.analyze("NIHAO", &user);
    assert_eq!(a.best_line, "你好");
}

#[test]
fn upper_case_is_never_initials() {
    let dict = dict();
    let user = UserDict::default();
    assert_eq!(dict.analyze("hl", &user).best_line, "回来");
    for run in ["HL", "Hl", "hL"] {
        let a = dict.analyze(run, &user);
        assert!(!a.candidates.iter().any(|c| c.text == "回来"), "{run}");
    }
    assert_eq!(dict.analyze("HL", &user).best_line, "hl");
}

#[test]
fn long_and_empty_runs() {
    let dict = dict();
    let user = UserDict::default();
    let long = "a".repeat(65);
    let a = dict.analyze(&long, &user);
    assert_eq!(a.best_line, long);
    assert!(a.candidates.is_empty());
    assert!(a.path.is_empty());
    let a = dict.analyze("", &user);
    assert_eq!(a.best_line, "");
    assert!(a.candidates.is_empty());
    let a = Analysis::default();
    assert!(a.candidates.is_empty() && a.best_line.is_empty() && a.path.is_empty());
}

#[test]
fn picked_word_ranks_first_next_time() {
    let dict = dict();
    let mut user = UserDict::default();
    assert_eq!(dict.analyze("shi", &user).candidates[0].text, "是");
    user.record_pick("shi", "事", None);
    let a = dict.analyze("shi", &user);
    assert_eq!(a.candidates[0].text, "事");
    assert_eq!(a.candidates[0].consumed_bytes, 3);
    assert!(!a.candidates[0].sentence);
}

#[test]
fn row_and_line_agree() {
    let dict = dict();
    let mut user = UserDict::default();
    for _ in 0..9 {
        user.record_pick("x", "试", None);
    }
    for run in ["shi", "ni", "shizi", "keneng"] {
        let a = dict.analyze(run, &user);
        assert_eq!(a.candidates[0].text, a.best_line, "{run}");
        assert_eq!(a.candidates[0].consumed_bytes, run.len());
    }
}

#[test]
fn follows_do_not_skew_conversion() {
    let dict = dict();
    let mut user = UserDict::default();
    user.record_pick("shizi", "狮子", None);
    let before = dict.analyze("shizishi", &user);
    for _ in 0..50 {
        user.record_follow("狮子", "事");
        user.record_follow("我", "十字");
    }
    let after = dict.analyze("shizishi", &user);
    assert_eq!(before.best_line, after.best_line);
    assert_eq!(before.path, after.path);
    let texts = |c: &Analysis| c.candidates.iter().map(|c| (c.text.clone(), c.consumed_bytes)).collect::<Vec<_>>();
    assert_eq!(texts(&before), texts(&after));
}

#[test]
fn lookup_gives_the_words_with_the_syllables() {
    let dict = load("甲\t1\tba\n乙\t9\tba\n丙\t5\tba'ba\n丁\t5\tba\n戊\t7\tb'oba\n");
    let a = dict.analyze("ba", &UserDict::default());
    let texts: Vec<&str> = a.candidates.iter().map(|c| c.text.as_str()).collect();
    assert_eq!(texts, vec!["乙", "丁", "甲"]);
    let a = dict.analyze("ba'ba", &UserDict::default());
    assert_eq!(a.best_line, "丙");
    let a = dict.analyze("b'oba", &UserDict::default());
    assert_eq!(a.best_line, "戊");
}

#[test]
fn boost_follows_the_logarithm() {
    let mut user = UserDict::default();
    assert_eq!(user_boost(&user, "试"), 0);
    for n in 1..20 {
        user.record_pick("shi", "试", None);
        let expect = (1.5 * (1.0 + n as f64).ln()).min(3.5);
        let got = user_boost(&user, "试") as f64 / 4503599627370496.0;
        assert!((got - expect).abs() < 1e-12, "{n}: {got} {expect}");
    }
}

#[test]
fn keys_of_syllables_and_initials() {
    assert_eq!(pack(0, 1), 1);
    assert_eq!(pack(1, 2), 514);
    assert_eq!(pack(pack(pack(0, 3), 4), 5), 3 * 262144 + 4 * 512 + 5);
    assert_eq!(pack_initials(b"a"), Some(1));
    assert_eq!(pack_initials(b"hl"), Some(8 * 32 + 12));
    assert_eq!(pack_initials(b""), None);
    assert_eq!(pack_initials(b"abcdefghi"), None);
    assert_eq!(pack_initials(b"aB"), None);
    assert_eq!(pack_initials(b"a'"), None);
}

#[test]
fn dictionary_lines() {
    let l = parse_dict("你好\t10\tni'hao\tmore\r\nbroken\t1\n\n好\tx\thao");
    assert_eq!(l.len(), 2);
    assert_eq!((l[0].word.as_str(), l[0].freq.as_str()), ("你好", "10"));
    assert_eq!(l[0].syls, vec!["ni".to_string(), "hao".to_string()]);
    assert_eq!((l[1].word.as_str(), l[1].freq.as_str()), ("好", "x"));
}

#[test]
fn words_are_found_by_their_syllables() {
    let dict = dict();
    let run: Vec<char> = "xianshi".chars().collect();
    let ends: Vec<usize> = dict.walk_words(&run, 0).iter().filter(|w| w.2).map(|w| w.0).collect();
    // xi, xia, xian, then xi'an, found behind xi.
    assert_eq!(ends, vec![2, 3, 4, 4]);
    assert_eq!(dict.syllables_at(&run, 0), vec![2, 3, 4]);
    let run: Vec<char> = "xi'an".chars().collect();
    let ends: Vec<usize> = dict.walk_words(&run, 0).iter().filter(|w| w.2).map(|w| w.0).collect();
    assert_eq!(ends, vec![2, 5]);
    assert_eq!(dict.syllables_at(&run, 0), vec![2]);
}

#[test]
fn beginnings_of_words_are_reported_as_such() {
    let dict = load("甲乙丙\t5\tba'bo'bi\n丁\t5\tbo\n戊\t5\tbi\n");
    let run: Vec<char> = "babobi".chars().collect();
    let (ba, bo, bi) = (1u16, 2u16, 3u16);
    let two = pack(pack(0, ba), bo);
    // Words start with ba and with ba'bo, but neither is one.
    assert_eq!(dict.walk_words(&run, 0), vec![(2, pack(0, ba), false), (4, two, false), (6, pack(two, bi), true)]);
    // bo'bi starts no word.
    assert_eq!(dict.walk_words(&run, 2), vec![(4, pack(0, bo), true)]);
}

#[test]
fn joins_are_reported_once() {
    let dict = dict();
    for text in ["xianshi", "keneng", "nihaoma", "xi'an", "jintianchileshenme"] {
        let run: Vec<char> = text.chars().collect();
        for j in 0..run.len() {
            let joins = dict.walk_words(&run, j);
            for (i, a) in joins.iter().enumerate() {
                assert!(!joins[..i].contains(a), "{text} from {j}");
            }
        }
    }
}

#[test]
fn long_words_are_not_looked_up() {
    let dict = load("一二三四五六七八\t5\ta'b'c'd'e'f'g'h\n一二三四五六七八九\t9\ta'b'c'd'e'f'g'h'i\n");
    let user = UserDict::default();
    let a = dict.analyze("a'b'c'd'e'f'g'h", &user);
    assert_eq!(a.best_line, "一二三四五六七八");
    let a = dict.analyze("abcdefghi", &user);
    assert_eq!(a.best_line, "一二三四五六七八i");
}

#[test]
fn runs_start_with_a_letter() {
    assert_eq!(run_start(""), 0);
    assert_eq!(run_start("nihao"), 0);
    assert_eq!(run_start("你好nihao"), 6);
    assert_eq!(run_start("你好"), 6);
    assert_eq!(run_start("a1'b'c"), 3);
    assert_eq!(run_start("1''"), 3);
    assert_eq!(run_start("'ni"), 1);
}
