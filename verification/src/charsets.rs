//! Character tables and line-breaking classes used by the layout engine.
//!
//! The GB2312 tables list the common CJK characters used to prewarm glyph
//! caches; the kinsoku tables list the punctuation that may not begin or end a line.
use vstd::prelude::*;
use crate::text::chars_of;

verus! {

/// GB2312 level-1 common characters (abridged list used for prewarming), each once.
pub const GB2312_LEVEL1_CHARS: &'static str = "的一是不了人我在有他这中大来上个国到说们为子和你地出会也时要就可以生那得于着下自之年过发后作里用道行所然家种事成方多经么去法学如都同现当没动面起看定天分还进好小部其些主样理心她本前开但因只从想实日军者意无力它与长把机十民第公此已工使情明性知全三又关点正业外将两高间由问很最重并物手应战向头文体政美相见被利什二等产或新己制身果加西斯月话合回特代内信表化老世位次度门任常先海通教儿原路花结处让走义各入楼导观止记难北辰衣立节空觉规切夜该静注资始府率今阳";

/// GB2312 level-2 common characters (abridged list), each once and none of level 1.
pub const GB2312_LEVEL2_CHARS: &'static str = "俺挨唉哎矮爱安暗按案昂凹奥八巴扒吧拔罢白百摆败班般搬板办半伴帮绑棒包宝报抱暴爆悲卑辈背逼鼻比笔闭壁避必碧边编鞭扁变遍辨辩别宾冰病波播剥伯泊补捕布步擦猜才材财裁采菜参餐残蚕灿苍仓藏操曹册层差拆柴肠场超抄朝潮彻尘陈称城呈诚承吃迟驰冲虫抽酬稠愁筹仇绸初除厨楚础触穿传创吹春纯词刺聪丛凑粗促催存错搭达打袋担淡弹荡刀倒悼稻灯登低敌底弟递典店电垫掉吊调跌顶丢东冬洞斗督独读堵赌段断堆队对盾顿夺额恶耳乏罚伐帆翻烦繁泛坊房肥废肺费纷奋风封疯逢缝佛否夫扶服浮符福幅辐辅父复腹改概干甘赶敢感刚搞告歌革格隔根跟更功攻供恭宫弓狗够构骨固故顾瓜挂怪管官归闺哈害含寒号何核黑恨轰红洪虹呼乎忽湖虎互护华画划坏欢环换荒慌皇黄灰辉毁婚魂混活火伙祸击鸡积基激集及极急疾即几计季夹佳假坚简俭检减剪件建江浆奖讲降焦交角脚缴搅叫较接街姐届界借斤仅紧尽近劲禁京精睛井景净敬境镜究九酒旧救居举句剧据距卷决绝均君康抗烤靠科壳渴刻克客孔控快款矿昆困扩拉兰蓝篮览懒浪劳牢乐雷累泪类冷离历例粒连莲联练炼凉粮梁良亮量料临灵领令刘流六龙聋笼隆漏露陆录乱略论落妈麻马埋卖脉满慢漫忙毛矛冒眉梅每闷梦迷米密蜜眠绵苗灭名命摸末莫某木母目拿南能念娘宁牛农浓弄女暖爬排派盼判叛培陪配喷盆批皮疲脾匹片骗飘漂品贫聘平评破扑铺普漆期欺奇骑企启器气迁牵浅强桥巧且侵亲青清晴请秋求区曲取圈权确热认容融弱散桑扫色森杀沙筛晒山闪善捎梢烧稍少哨舍社深甚渗升牲省剩尸失师施湿诗石食视适室收首守受授瘦书输叔殊熟术述树束数帅双谁水睡顺司丝思死四送速算虽随碎岁孙损缩台太谈坦探汤躺逃套提题跳铁听停统突图团推托拖脱挖完玩顽王网往旺望温握屋五武午误吸希息习洗喜系细瞎鲜显险献乡香箱详响项象校笑辛兴星醒姓兄胸休修虚许叙续旋选雪寻压呀牙言岩眼演养野叶宜异忆音引阴印英营影硬拥永泳勇油游友右余鱼羽遇源远愿越云运杂灾再咱早造则责怎增曾摘展占张章招找真织直值植指纸志治钟终众周猪逐竹住助抓专转赚庄装状准桌族组嘴醉尊遵昨做";

/// The characters of `s` in order, each kept at its first occurrence and only
/// when it is not in `excluded`.
pub open spec fn distinct_chars(s: Seq<char>, excluded: Seq<char>) -> Seq<char>
    decreases s.len(),
{
    if s.len() == 0 {
        Seq::<char>::empty()
    } else {
        let prev = distinct_chars(s.drop_last(), excluded);
        if prev.contains(s.last()) || excluded.contains(s.last()) {
            prev
        } else {
            prev.push(s.last())
        }
    }
}

/// What `distinct_chars` keeps: no character twice, none of `excluded`, and
/// exactly the characters of `s` that `excluded` does not hold.
pub proof fn lemma_distinct_chars(s: Seq<char>, excluded: Seq<char>)
    ensures
        distinct_chars(s, excluded).no_duplicates(),
        forall|c: char| #[trigger]
            distinct_chars(s, excluded).contains(c) <==> (s.contains(c) && !excluded.contains(c)),
    decreases s.len(),
{
    if s.len() > 0 {
        lemma_distinct_chars(s.drop_last(), excluded);
        let prev = distinct_chars(s.drop_last(), excluded);
        assert forall|c: char| #[trigger] s.contains(c) <==> (s.drop_last().contains(c) || c == s.last()) by {
            if s.contains(c) {
                let k = choose|k: int| 0 <= k < s.len() && s[k] == c;
                if k < s.len() - 1 {
                    assert(s.drop_last()[k] == c);
                }
            }
            if s.drop_last().contains(c) {
                let k = choose|k: int| 0 <= k < s.drop_last().len() && s.drop_last()[k] == c;
                assert(s[k] == c);
            }
            if c == s.last() {
                assert(s[s.len() - 1] == c);
            }
        }
        if !(prev.contains(s.last()) || excluded.contains(s.last())) {
            let r = prev.push(s.last());
            assert forall|c: char| #[trigger] r.contains(c) <==> (prev.contains(c) || c == s.last()) by {
                if r.contains(c) {
                    let k = choose|k: int| 0 <= k < r.len() && r[k] == c;
                    if k < prev.len() {
                        assert(prev[k] == c);
                    }
                }
                if prev.contains(c) {
                    let k = choose|k: int| 0 <= k < prev.len() && prev[k] == c;
                    assert(r[k] == c);
                }
                if c == s.last() {
                    assert(r[r.len() - 1] == c);
                }
            }
            assert forall|i: int, j: int| 0 <= i < r.len() && 0 <= j < r.len() && i != j implies r[i]
                != r[j] by {
                if i < prev.len() && j < prev.len() {
                    assert(prev[i] == r[i] && prev[j] == r[j]);
                } else if i < prev.len() {
                    assert(prev[i] == r[i]);
                    assert(prev.contains(r[i]));
                } else if j < prev.len() {
                    assert(prev[j] == r[j]);
                    assert(prev.contains(r[j]));
                }
            }
        }
    }
}

/// The characters of `s`, when no character repeats, are kept as they are.
proof fn lemma_distinct_chars_unchanged(s: Seq<char>)
    requires
        s.no_duplicates(),
    ensures
        distinct_chars(s, Seq::<char>::empty()) == s,
    decreases s.len(),
{
    if s.len() > 0 {
        let t = s.drop_last();
        assert(t.no_duplicates()) by {
            assert forall|i: int, j: int| 0 <= i < t.len() && 0 <= j < t.len() && i != j implies t[i]
                != t[j] by {
                assert(t[i] == s[i] && t[j] == s[j]);
            }
        }
        lemma_distinct_chars_unchanged(t);
        assert(!t.contains(s.last())) by {
            if t.contains(s.last()) {
                let k = choose|k: int| 0 <= k < t.len() && t[k] == s.last();
                assert(s[k] == s[s.len() - 1]);
            }
        }
        assert(t.push(s.last()) =~= s);
    }
}

/// The level-1 table holds 223 characters, none of them twice.
pub proof fn lemma_gb2312_level1_size()
    ensures
        GB2312_LEVEL1_CHARS@.no_duplicates(),
        distinct_chars(GB2312_LEVEL1_CHARS@, Seq::<char>::empty()) == GB2312_LEVEL1_CHARS@,
        GB2312_LEVEL1_CHARS@.len() == 223,
{
    reveal_strlit("的一是不了人我在有他这中大来上个国到说们为子和你地出会也时要就可以生那得于着下自之年过发后作里用道行所然家种事成方多经么去法学如都同现当没动面起看定天分还进好小部其些主样理心她本前开但因只从想实日军者意无力它与长把机十民第公此已工使情明性知全三又关点正业外将两高间由问很最重并物手应战向头文体政美相见被利什二等产或新己制身果加西斯月话合回特代内信表化老世位次度门任常先海通教儿原路花结处让走义各入楼导观止记难北辰衣立节空觉规切夜该静注资始府率今阳");
    lemma_distinct_chars_unchanged(GB2312_LEVEL1_CHARS@);
}

/// Whether `v` holds `c`.
fn holds_char(v: &Vec<char>, c: char) -> (b: bool)
    ensures
        b == v@.contains(c),
{
    let mut i: usize = 0;
    while i < v.len()
        invariant
            i <= v@.len(),
            forall|j: int| 0 <= j < i ==> v@[j] != c,
        decreases v@.len() - i,
    {
        if v[i] == c {
            assert(v@[i as int] == c);
            return true;
        }
        i = i + 1;
    }
    false
}

/// The characters of `s` in order, each once, leaving out those of `excluded`.
fn collect_distinct(s: &Vec<char>, excluded: &Vec<char>) -> (r: Vec<char>)
    ensures
        r@ == distinct_chars(s@, excluded@),
{
    let mut r: Vec<char> = Vec::new();
    let mut i: usize = 0;
    while i < s.len()
        invariant
            i <= s@.len(),
            r@ == distinct_chars(s@.take(i as int), excluded@),
        decreases s@.len() - i,
    {
        proof {
            assert(s@.take(i + 1).drop_last() =~= s@.take(i as int));
            assert(s@.take(i + 1).last() == s@[i as int]);
        }
        let c = s[i];
        if !holds_char(&r, c) && !holds_char(excluded, c) {
            r.push(c);
        }
        i = i + 1;
    }
    proof {
        assert(s@.take(s@.len() as int) =~= s@);
    }
    r
}

/// The level-1 characters, in table order, each once.
pub fn gb2312_level1_chars() -> (r: Vec<char>)
    ensures
        r@ == distinct_chars(GB2312_LEVEL1_CHARS@, Seq::<char>::empty()),
        r@ == GB2312_LEVEL1_CHARS@,
        r@.len() == 223,
        r@.no_duplicates(),
        forall|c: char| #[trigger] r@.contains(c) <==> GB2312_LEVEL1_CHARS@.contains(c),
{
    let table = chars_of(GB2312_LEVEL1_CHARS);
    let none: Vec<char> = Vec::new();
    proof {
        lemma_distinct_chars(GB2312_LEVEL1_CHARS@, Seq::<char>::empty());
        lemma_gb2312_level1_size();
    }
    collect_distinct(&table, &none)
}

/// The level-2 characters, in table order, each once; none of them is a
/// level-1 character.
pub fn gb2312_level2_chars() -> (r: Vec<char>)
    ensures
        r@ == distinct_chars(GB2312_LEVEL2_CHARS@, distinct_chars(GB2312_LEVEL1_CHARS@, Seq::<char>::empty())),
        r@.no_duplicates(),
        forall|c: char| #[trigger] r@.contains(c) <==> (GB2312_LEVEL2_CHARS@.contains(c)
            && !GB2312_LEVEL1_CHARS@.contains(c)),
{
    let level1 = gb2312_level1_chars();
    let table = chars_of(GB2312_LEVEL2_CHARS);
    proof {
        lemma_distinct_chars(GB2312_LEVEL2_CHARS@, level1@);
    }
    collect_distinct(&table, &level1)
}

/// Number of level-1 characters.
pub fn gb2312_level1_count() -> (n: usize)
    ensures
        n == distinct_chars(GB2312_LEVEL1_CHARS@, Seq::<char>::empty()).len(),
        n == 223,
{
    gb2312_level1_chars().len()
}

/// The two levels have no character in common.
pub proof fn lemma_gb2312_levels_disjoint(c: char)
    ensures
        !(distinct_chars(GB2312_LEVEL1_CHARS@, Seq::<char>::empty()).contains(c) && distinct_chars(
            GB2312_LEVEL2_CHARS@,
            distinct_chars(GB2312_LEVEL1_CHARS@, Seq::<char>::empty()),
        ).contains(c)),
{
    lemma_distinct_chars(
        GB2312_LEVEL2_CHARS@,
        distinct_chars(GB2312_LEVEL1_CHARS@, Seq::<char>::empty()),
    );
}

/// Line-start forbidden characters: closing punctuation and trailing symbols.
pub open spec fn spec_is_line_start_forbidden(c: char) -> bool {
    c == '，' || c == '。' || c == '、' || c == '；' || c == '：' || c == '？' || c == '！' || c
        == '\u{201D}' || c == '\u{2019}' || c == '」' || c == '』' || c == '）' || c == '】' || c
        == '〉' || c == '》' || c == '…' || c == '—' || c == '～' || c == '·' || c == '％' || c
        == ',' || c == '.' || c == ';' || c == ':' || c == '!' || c == '?' || c == '%' || c
        == ')' || c == ']' || c == '}' || c == '\'' || c == '"' || c == '‰' || c == '°' || c
        == '℃'
}

/// Line-end forbidden characters: opening punctuation.
pub open spec fn spec_is_line_end_forbidden(c: char) -> bool {
    c == '「' || c == '『' || c == '（' || c == '【' || c == '〈' || c == '《' || c == '\u{2018}'
        || c == '\u{201C}' || c == '(' || c == '[' || c == '{' || c == '\'' || c == '"'
}

/// Whether `c` may not begin a line.
pub fn is_line_start_forbidden(c: char) -> (b: bool)
    ensures
        b == spec_is_line_start_forbidden(c),
{
    c == '，' || c == '。' || c == '、' || c == '；' || c == '：' || c == '？' || c == '！' || c
        == '\u{201D}' || c == '\u{2019}' || c == '」' || c == '』' || c == '）' || c == '】' || c
        == '〉' || c == '》' || c == '…' || c == '—' || c == '～' || c == '·' || c == '％' || c
        == ',' || c == '.' || c == ';' || c == ':' || c == '!' || c == '?' || c == '%' || c
        == ')' || c == ']' || c == '}' || c == '\'' || c == '"' || c == '‰' || c == '°' || c
        == '℃'
}

/// Whether `c` may not end a line.
pub fn is_line_end_forbidden(c: char) -> (b: bool)
    ensures
        b == spec_is_line_end_forbidden(c),
{
    c == '「' || c == '『' || c == '（' || c == '【' || c == '〈' || c == '《' || c == '\u{2018}'
        || c == '\u{201C}' || c == '(' || c == '[' || c == '{' || c == '\'' || c == '"'
}

pub open spec fn spec_is_word_char(c: char) -> bool {
    ('a' <= c && c <= 'z') || ('A' <= c && c <= 'Z') || ('0' <= c && c <= '9') || c == '_'
}

/// Word character for whole-word line breaking: ASCII letter, digit or underscore.
pub fn is_word_char(c: char) -> (b: bool)
    ensures
        b == spec_is_word_char(c),
{
    ('a' <= c && c <= 'z') || ('A' <= c && c <= 'Z') || ('0' <= c && c <= '9') || c == '_'
}

/// Whether a line-final `c` may be compressed to half width: exactly the
/// line-start forbidden (closing) punctuation.
pub fn is_line_end_compressible(c: char) -> (b: bool)
    ensures
        b == spec_is_line_start_forbidden(c),
{
    is_line_start_forbidden(c)
}

/// The two kinsoku tables share only the neutral straight quotes.
pub proof fn lemma_kinsoku_tables_disjoint(c: char)
    ensures
        spec_is_line_start_forbidden(c) && spec_is_line_end_forbidden(c) ==> c == '\'' || c
            == '"',
{
}

} // verus!
