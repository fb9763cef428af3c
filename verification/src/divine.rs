//! Casting a hexagram.
//!
//! The cast is not drawn at random: the person's own material is the yarrow.
//! The forty-nine-stalk method is walked for real — divide in two, hang one,
//! count off by fours, set the remainders aside — three changes make a line,
//! eighteen changes make a hexagram. The same material therefore always casts
//! the same hexagram.
//!
//! Besides the primary hexagram a cast carries its moving lines (old yang,
//! nine; old yin, six) and the changed hexagram they flip into.

use vstd::prelude::*;
use crate::text::{decimal, push_chars, push_str, u64_digits};

verus! {

/// One line. The numbers follow the stalk method: six old yin, seven young
/// yang, eight young yin, nine old yang.
#[derive(Debug, Clone, Copy, PartialEq, Eq, Structural)]
pub enum Line {
    /// Old yin, six. Moving; becomes yang.
    OldYin,
    /// Young yang, seven. At rest.
    YoungYang,
    /// Young yin, eight. At rest.
    YoungYin,
    /// Old yang, nine. Moving; becomes yin.
    OldYang,
}

impl Line {
    pub open spec fn number(self) -> u8 {
        match self {
            Line::OldYin => 6,
            Line::YoungYang => 7,
            Line::YoungYin => 8,
            Line::OldYang => 9,
        }
    }

    pub open spec fn is_yang(self) -> bool {
        self is YoungYang || self is OldYang
    }

    pub open spec fn is_changing(self) -> bool {
        self is OldYang || self is OldYin
    }

    /// The stalk number of the line (six to nine).
    pub fn value(self) -> (v: u8)
        ensures
            v == self.number(),
    {
        match self {
            Line::OldYin => 6,
            Line::YoungYang => 7,
            Line::YoungYin => 8,
            Line::OldYang => 9,
        }
    }

    /// Yang or yin, as the line stands now (not what it turns into).
    pub fn yang(self) -> (b: bool)
        ensures
            b == self.is_yang(),
    {
        matches!(self, Line::YoungYang | Line::OldYang)
    }

    /// Old yang and old yin are the moving lines.
    pub fn changing(self) -> (b: bool)
        ensures
            b == self.is_changing(),
    {
        matches!(self, Line::OldYang | Line::OldYin)
    }
}

/// The name of a line position, counted from the bottom.
pub open spec fn position_char(index: int) -> char {
    if index == 0 {
        '初'
    } else if index == 1 {
        '二'
    } else if index == 2 {
        '三'
    } else if index == 3 {
        '四'
    } else if index == 4 {
        '五'
    } else {
        '上'
    }
}

/// A line title: 初九, 六二, 上六 ...
pub open spec fn title_of(index: int, yang: bool) -> Seq<char> {
    let number = if yang {
        '九'
    } else {
        '六'
    };
    if index == 0 {
        seq!['初', number]
    } else if index == 5 {
        seq!['上', number]
    } else {
        seq![number, position_char(index)]
    }
}

fn position_name(index: usize) -> (c: char)
    requires
        index < 6,
    ensures
        c == position_char(index as int),
{
    match index {
        0 => '初',
        1 => '二',
        2 => '三',
        3 => '四',
        4 => '五',
        _ => '上',
    }
}

/// The title of a line: 初九 / 六二 / 上六.
pub fn line_title(index: usize, yang: bool) -> (out: String)
    requires
        index < 6,
    ensures
        out@ == title_of(index as int, yang),
{
    let number = if yang {
        '九'
    } else {
        '六'
    };
    let mut out = String::new();
    if index == 0 {
        out.push('初');
        out.push(number);
    } else if index == 5 {
        out.push('上');
        out.push(number);
    } else {
        out.push(number);
        out.push(position_name(index));
    }
    assert(out@ =~= title_of(index as int, yang));
    out
}

/// One hexagram.
#[derive(Clone, Copy)]
pub struct Hexagram {
    /// Place in the Sequence order, one to sixty-four.
    pub number: u8,
    /// Name, such as 屯.
    pub name: &'static str,
    /// Full name, such as 水雷屯.
    pub full: &'static str,
    /// The six lines, bit 0 is the first line, 1 is yang.
    pub binary: u8,
    /// The judgment, in the words of the classic.
    pub judgment: &'static str,
    /// What the hexagram is about.
    pub sense: &'static str,
}

/// The trigram names, keyed by their three lines (bit 0 at the bottom).
pub open spec fn trigram_char(bits: u8) -> char {
    if bits == 7 {
        '乾'
    } else if bits == 6 {
        '兑'
    } else if bits == 5 {
        '离'
    } else if bits == 4 {
        '震'
    } else if bits == 3 {
        '巽'
    } else if bits == 2 {
        '坎'
    } else if bits == 1 {
        '艮'
    } else {
        '坤'
    }
}

/// Name of the trigram drawn by the low three bits.
pub fn trigram_name(bits: u8) -> (name: &'static str)
    ensures
        name@ == seq![trigram_char(bits & 7)],
{
    let low = bits & 0b111;
    assert(low < 8) by (bit_vector)
        requires
            low == bits & 7,
    ;
    if low == 0b111 {
        proof {
            reveal_strlit("乾");
        }
        "乾"
    } else if low == 0b110 {
        proof {
            reveal_strlit("兑");
        }
        "兑"
    } else if low == 0b101 {
        proof {
            reveal_strlit("离");
        }
        "离"
    } else if low == 0b100 {
        proof {
            reveal_strlit("震");
        }
        "震"
    } else if low == 0b011 {
        proof {
            reveal_strlit("巽");
        }
        "巽"
    } else if low == 0b010 {
        proof {
            reveal_strlit("坎");
        }
        "坎"
    } else if low == 0b001 {
        proof {
            reveal_strlit("艮");
        }
        "艮"
    } else {
        proof {
            reveal_strlit("坤");
        }
        "坤"
    }
}

impl Hexagram {
    pub open spec fn upper_bits(self) -> u8 {
        (self.binary >> 3) & 7
    }

    pub open spec fn lower_bits(self) -> u8 {
        self.binary & 7
    }

    /// The upper (outer) trigram.
    pub fn upper(&self) -> (bits: u8)
        ensures
            bits == self.upper_bits(),
    {
        (self.binary >> 3) & 0b111
    }

    /// The lower (inner) trigram.
    pub fn lower(&self) -> (bits: u8)
        ensures
            bits == self.lower_bits(),
    {
        self.binary & 0b111
    }

    /// The reading 「上坎下震」.
    pub fn trigrams(&self) -> (out: String)
        ensures
            out@ == seq!['上', trigram_char(self.upper_bits()), '下', trigram_char(self.lower_bits())],
    {
        let up = self.upper();
        let low = self.lower();
        let b = self.binary;
        assert(up & 7 == up && low & 7 == low) by (bit_vector)
            requires
                up == (b >> 3) & 7,
                low == b & 7,
        ;
        let mut out = String::new();
        out.push('上');
        push_str(&mut out, trigram_name(up));
        out.push('下');
        push_str(&mut out, trigram_name(low));
        assert(out@ =~= seq!['上', trigram_char(up), '下', trigram_char(low)]);
        out
    }
}

/// The sixty-four hexagrams in the order of the Sequence commentary,
/// keyed by their number (1..=64). Other numbers give an empty entry.
#[verifier::opaque]
pub open spec fn table(number: u8) -> Hexagram {
    match number {
        1 => Hexagram { number: 1, name: "乾", full: "乾为天", binary: 0b111111, judgment: "元亨利贞。", sense: "纯阳至健，是力量最足的一卦。自强的道理：势越盛，越怕盈满。" },
        2 => Hexagram { number: 2, name: "坤", full: "坤为地", binary: 0b000000, judgment: "元亨，利牝马之贞。君子有攸往，先迷后得主，利西南得朋，东北丧朋。安贞吉。", sense: "纯阴至顺，是承载与跟随的位置。不争先，先迷后得，靠的是守静与借力。" },
        3 => Hexagram { number: 3, name: "屯", full: "水雷屯", binary: 0b010100, judgment: "元亨利贞，勿用有攸往，利建侯。", sense: "初生就遇上险，万事开头难。这时候不宜远行，宜扎住根、找对人。" },
        4 => Hexagram { number: 4, name: "蒙", full: "山水蒙", binary: 0b001010, judgment: "亨。匪我求童蒙，童蒙求我。初筮告，再三渎，渎则不告。利贞。", sense: "蒙昧未开，是要学要问的时候。问一次就够，反复试探反而不灵。" },
        5 => Hexagram { number: 5, name: "需", full: "水天需", binary: 0b010111, judgment: "有孚，光亨，贞吉。利涉大川。", sense: "云在天上，雨还没落。该等的就等——等不是干耗，是把自己备好。" },
        6 => Hexagram { number: 6, name: "讼", full: "天水讼", binary: 0b111010, judgment: "有孚窒惕，中吉，终凶。利见大人，不利涉大川。", sense: "争。赢到底也算输，中途收手才是上策。" },
        7 => Hexagram { number: 7, name: "师", full: "地水师", binary: 0b000010, judgment: "贞，丈人吉，无咎。", sense: "聚众。要有规矩，要有主事的人，名正才言顺。" },
        8 => Hexagram { number: 8, name: "比", full: "水地比", binary: 0b010000, judgment: "吉。原筮，元永贞，无咎。不宁方来，后夫凶。", sense: "亲附。跟对人比什么都强，早跟比晚跟好。" },
        9 => Hexagram { number: 9, name: "小畜", full: "风天小畜", binary: 0b011111, judgment: "亨。密云不雨，自我西郊。", sense: "小有积蓄，力还不够。密云不雨，先攒着，别急着要结果。" },
        10 => Hexagram { number: 10, name: "履", full: "天泽履", binary: 0b111110, judgment: "履虎尾，不咥人，亨。", sense: "踩着虎尾走路。分寸就是性命，谨慎与礼数是护身的东西。" },
        11 => Hexagram { number: 11, name: "泰", full: "地天泰", binary: 0b000111, judgment: "小往大来，吉亨。", sense: "通。上下相交，气脉顺。顺境里要防的是把通当成当然。" },
        12 => Hexagram { number: 12, name: "否", full: "天地否", binary: 0b111000, judgment: "否之匪人，不利君子贞，大往小来。", sense: "塞。上下不交，说什么也不通。此时守住自己，不必硬推。" },
        13 => Hexagram { number: 13, name: "同人", full: "天火同人", binary: 0b111101, judgment: "同人于野，亨。利涉大川，利君子贞。", sense: "与人和同。在开阔处结伴，不在门户里结党。" },
        14 => Hexagram { number: 14, name: "大有", full: "火天大有", binary: 0b101111, judgment: "元亨。", sense: "所有甚丰。手里有东西的时候，考验的不是本事，是怎么拿。" },
        15 => Hexagram { number: 15, name: "谦", full: "地山谦", binary: 0b000001, judgment: "亨，君子有终。", sense: "谦。有实而能下，六爻里只有这一卦没有凶辞。" },
        16 => Hexagram { number: 16, name: "豫", full: "雷地豫", binary: 0b100000, judgment: "利建侯行师。", sense: "豫乐，也是预备。顺而动，乐要有节制，乐之前要先有准备。" },
        17 => Hexagram { number: 17, name: "随", full: "泽雷随", binary: 0b110100, judgment: "元亨利贞，无咎。", sense: "随顺时势。跟着走没错，要紧的是知道自己跟的是什么。" },
        18 => Hexagram { number: 18, name: "蛊", full: "山风蛊", binary: 0b001011, judgment: "元亨，利涉大川。先甲三日，后甲三日。", sense: "积弊成蛊。坏掉的东西要治，治之前先把怎么坏的弄清楚。" },
        19 => Hexagram { number: 19, name: "临", full: "地泽临", binary: 0b000110, judgment: "元亨利贞。至于八月有凶。", sense: "居高临下。势好的时候，要想到八月。" },
        20 => Hexagram { number: 20, name: "观", full: "风地观", binary: 0b011000, judgment: "盥而不荐，有孚颙若。", sense: "观。既在看别人，也在被别人看。诚敬比排场管用。" },
        21 => Hexagram { number: 21, name: "噬嗑", full: "火雷噬嗑", binary: 0b101100, judgment: "亨。利用狱。", sense: "咬合。中间卡着硬东西，非咬碎不能通——该断的就得断。" },
        22 => Hexagram { number: 22, name: "贲", full: "山火贲", binary: 0b001101, judgment: "亨。小利有攸往。", sense: "文饰。修饰只宜小用，本色才要紧。" },
        23 => Hexagram { number: 23, name: "剥", full: "山地剥", binary: 0b001000, judgment: "不利有攸往。", sense: "剥落。根基在一层层被削，此时宜止不宜进。" },
        24 => Hexagram { number: 24, name: "复", full: "地雷复", binary: 0b000100, judgment: "亨。出入无疾，朋来无咎。反复其道，七日来复，利有攸往。", sense: "一阳来复。回头就是路，重新开始不丢人。" },
        25 => Hexagram { number: 25, name: "无妄", full: "天雷无妄", binary: 0b111100, judgment: "元亨利贞。其匪正有眚，不利有攸往。", sense: "不妄。按本分做事就顺，动了歪念就有灾。" },
        26 => Hexagram { number: 26, name: "大畜", full: "山天大畜", binary: 0b001111, judgment: "利贞，不家食吉，利涉大川。", sense: "大积蓄。德与力都攒够了才谈得出山。" },
        27 => Hexagram { number: 27, name: "颐", full: "山雷颐", binary: 0b001100, judgment: "贞吉。观颐，自求口实。", sense: "养。看一个人拿什么养自己、养谁，就知道他是什么人。" },
        28 => Hexagram { number: 28, name: "大过", full: "泽风大过", binary: 0b110011, judgment: "栋桡，利有攸往，亨。", sense: "过甚。梁都要压弯了，非常的时候只能用非常的分量。" },
        29 => Hexagram { number: 29, name: "坎", full: "坎为水", binary: 0b010010, judgment: "习坎，有孚，维心亨，行有尚。", sense: "重重险。险里能靠的只有一颗定住的心。" },
        30 => Hexagram { number: 30, name: "离", full: "离为火", binary: 0b101101, judgment: "利贞，亨。畜牝牛，吉。", sense: "附丽。火要附着在东西上才亮，人要有可依之处。" },
        31 => Hexagram { number: 31, name: "咸", full: "泽山咸", binary: 0b110001, judgment: "亨，利贞，取女吉。", sense: "感应。无心之感最真，感应是从虚而受来的。" },
        32 => Hexagram { number: 32, name: "恒", full: "雷风恒", binary: 0b100011, judgment: "亨，无咎，利贞，利有攸往。", sense: "恒久。立得住是因为守常，不是因为猛。" },
        33 => Hexagram { number: 33, name: "遁", full: "天山遁", binary: 0b111001, judgment: "亨，小利贞。", sense: "退避。该退的时候退，退不是败。" },
        34 => Hexagram { number: 34, name: "大壮", full: "雷天大壮", binary: 0b100111, judgment: "利贞。", sense: "壮盛。力气大的时候最容易用错，壮而守正是全部。" },
        35 => Hexagram { number: 35, name: "晋", full: "火地晋", binary: 0b101000, judgment: "康侯用锡马蕃庶，昼日三接。", sense: "进。光明在上了，是向上走的时候。" },
        36 => Hexagram { number: 36, name: "明夷", full: "地火明夷", binary: 0b000101, judgment: "利艰贞。", sense: "明入地中。光被压住了，此时把光收起来，藏明于晦。" },
        37 => Hexagram { number: 37, name: "家人", full: "风火家人", binary: 0b011101, judgment: "利女贞。", sense: "内。一个地方的风气，是从里面先立起来的。" },
        38 => Hexagram { number: 38, name: "睽", full: "火泽睽", binary: 0b101110, judgment: "小事吉。", sense: "乖离。同中有异，容得下异才走得下去。" },
        39 => Hexagram { number: 39, name: "蹇", full: "水山蹇", binary: 0b010001, judgment: "利西南，不利东北。利见大人，贞吉。", sense: "跛行难进。难就绕，别拿头去撞。" },
        40 => Hexagram { number: 40, name: "解", full: "雷水解", binary: 0b100010, judgment: "利西南，无所往，其来复吉。有攸往，夙吉。", sense: "解冻。该散的散了，动作要早。" },
        41 => Hexagram { number: 41, name: "损", full: "山泽损", binary: 0b001110, judgment: "有孚，元吉，无咎，可贞，利有攸往。曷之用？二簋可用享。", sense: "减损。少而诚，比多而虚有用。" },
        42 => Hexagram { number: 42, name: "益", full: "风雷益", binary: 0b011100, judgment: "利有攸往，利涉大川。", sense: "增益。损上益下，越给越多。" },
        43 => Hexagram { number: 43, name: "夬", full: "泽天夬", binary: 0b110111, judgment: "扬于王庭，孚号有厉。告自邑，不利即戎，利有攸往。", sense: "决断。该断的要断，但要在明处断，不靠蛮力。" },
        44 => Hexagram { number: 44, name: "姤", full: "天风姤", binary: 0b111011, judgment: "女壮，勿用取女。", sense: "不期而遇。一阴初生，遇上得太容易的东西要留神。" },
        45 => Hexagram { number: 45, name: "萃", full: "泽地萃", binary: 0b110000, judgment: "亨。王假有庙，利见大人，亨，利贞。用大牲吉，利有攸往。", sense: "聚。人聚起来，要有由头，也要有主心骨。" },
        46 => Hexagram { number: 46, name: "升", full: "地风升", binary: 0b000011, judgment: "元亨，用见大人，勿恤，南征吉。", sense: "上升。像树一样长，不急，积小成高。" },
        47 => Hexagram { number: 47, name: "困", full: "泽水困", binary: 0b110010, judgment: "亨，贞，大人吉，无咎。有言不信。", sense: "困。说了也没人信的时候，就少说，守住里面的那点通。" },
        48 => Hexagram { number: 48, name: "井", full: "水风井", binary: 0b010011, judgment: "改邑不改井，无丧无得，往来井井。汔至亦未繘井，羸其瓶，凶。", sense: "井。滋养人的本事在井底，打不上来就等于没有。" },
        49 => Hexagram { number: 49, name: "革", full: "泽火革", binary: 0b110101, judgment: "己日乃孚，元亨利贞，悔亡。", sense: "变革。改要等到时候，改得对才没有悔。" },
        50 => Hexagram { number: 50, name: "鼎", full: "火风鼎", binary: 0b101011, judgment: "元吉，亨。", sense: "鼎新。把东西重新煮过一遍，换一副骨头。" },
        51 => Hexagram { number: 51, name: "震", full: "震为雷", binary: 0b100100, judgment: "亨。震来虩虩，笑言哑哑。震惊百里，不丧匕鬯。", sense: "动。雷来了先怕后笑，动里不失自己的分寸。" },
        52 => Hexagram { number: 52, name: "艮", full: "艮为山", binary: 0b001001, judgment: "艮其背，不获其身，行其庭，不见其人，无咎。", sense: "止。该停就停住。止住自己比止住别人难。" },
        53 => Hexagram { number: 53, name: "渐", full: "风山渐", binary: 0b011001, judgment: "女归吉，利贞。", sense: "渐进。按次序来，慢就是快。" },
        54 => Hexagram { number: 54, name: "归妹", full: "雷泽归妹", binary: 0b100110, judgment: "征凶，无攸利。", sense: "失序而合。名分不正的关系，再往前就是凶。" },
        55 => Hexagram { number: 55, name: "丰", full: "雷火丰", binary: 0b100101, judgment: "亨，王假之，勿忧，宜日中。", sense: "丰大。像正午一样亮，但要记得正午之后就是斜阳。" },
        56 => Hexagram { number: 56, name: "旅", full: "火山旅", binary: 0b101001, judgment: "小亨，旅贞吉。", sense: "旅。人在外头，谦下就顺。" },
        57 => Hexagram { number: 57, name: "巽", full: "巽为风", binary: 0b011011, judgment: "小亨，利有攸往，利见大人。", sense: "入。风无孔不入，柔而能进，重复比用力有效。" },
        58 => Hexagram { number: 58, name: "兑", full: "兑为泽", binary: 0b110110, judgment: "亨，利贞。", sense: "悦。说服人、被人喜欢，都要走正道。" },
        59 => Hexagram { number: 59, name: "涣", full: "风水涣", binary: 0b011010, judgment: "亨。王假有庙，利涉大川，利贞。", sense: "涣散。散得开才聚得拢，先把隔阂化开。" },
        60 => Hexagram { number: 60, name: "节", full: "水泽节", binary: 0b010110, judgment: "亨。苦节不可贞。", sense: "节制。有度才通；苦着自己去节，守不长。" },
        61 => Hexagram { number: 61, name: "中孚", full: "风泽中孚", binary: 0b011110, judgment: "豚鱼吉，利涉大川，利贞。", sense: "信在中。诚到连豚鱼都能感，才涉得过大川。" },
        62 => Hexagram { number: 62, name: "小过", full: "雷山小过", binary: 0b100001, judgment: "亨，利贞。可小事，不可大事。飞鸟遗之音，不宜上，宜下，大吉。", sense: "小有过越。小事上稍微过一点无妨，大事上不行；宜下不宜上。" },
        63 => Hexagram { number: 63, name: "既济", full: "水火既济", binary: 0b010101, judgment: "亨，小利贞，初吉终乱。", sense: "已成。做成了，反而要防乱——初吉终乱。" },
        64 => Hexagram { number: 64, name: "未济", full: "火水未济", binary: 0b101010, judgment: "亨，小狐汔济，濡其尾，无攸利。", sense: "未成。还没过河，小狐湿了尾巴，收尾要审慎。" },
        _ => Hexagram { number: 0, name: "", full: "", binary: 0, judgment: "", sense: "" },
    }
}

/// The number of the hexagram whose six lines read `binary` (bit 0 is the
/// first line, 1 is yang).
#[verifier::opaque]
pub open spec fn number_of(binary: u8) -> u8 {
    match binary {
        0 => 2,
        1 => 15,
        2 => 7,
        3 => 46,
        4 => 24,
        5 => 36,
        6 => 19,
        7 => 11,
        8 => 23,
        9 => 52,
        10 => 4,
        11 => 18,
        12 => 27,
        13 => 22,
        14 => 41,
        15 => 26,
        16 => 8,
        17 => 39,
        18 => 29,
        19 => 48,
        20 => 3,
        21 => 63,
        22 => 60,
        23 => 5,
        24 => 20,
        25 => 53,
        26 => 59,
        27 => 57,
        28 => 42,
        29 => 37,
        30 => 61,
        31 => 9,
        32 => 16,
        33 => 62,
        34 => 40,
        35 => 32,
        36 => 51,
        37 => 55,
        38 => 54,
        39 => 34,
        40 => 35,
        41 => 56,
        42 => 64,
        43 => 50,
        44 => 21,
        45 => 30,
        46 => 38,
        47 => 14,
        48 => 45,
        49 => 31,
        50 => 47,
        51 => 28,
        52 => 17,
        53 => 49,
        54 => 58,
        55 => 43,
        56 => 12,
        57 => 33,
        58 => 6,
        59 => 44,
        60 => 25,
        61 => 13,
        62 => 10,
        63 => 1,
        _ => 0,
    }
}

/// The entry numbered `number` in the Sequence order.
pub fn hexagram_numbered(number: u8) -> (h: Hexagram)
    requires
        1 <= number <= 64,
    ensures
        h == table(number),
{
    reveal(table);
    match number {
        1 => Hexagram { number: 1, name: "乾", full: "乾为天", binary: 0b111111, judgment: "元亨利贞。", sense: "纯阳至健，是力量最足的一卦。自强的道理：势越盛，越怕盈满。" },
        2 => Hexagram { number: 2, name: "坤", full: "坤为地", binary: 0b000000, judgment: "元亨，利牝马之贞。君子有攸往，先迷后得主，利西南得朋，东北丧朋。安贞吉。", sense: "纯阴至顺，是承载与跟随的位置。不争先，先迷后得，靠的是守静与借力。" },
        3 => Hexagram { number: 3, name: "屯", full: "水雷屯", binary: 0b010100, judgment: "元亨利贞，勿用有攸往，利建侯。", sense: "初生就遇上险，万事开头难。这时候不宜远行，宜扎住根、找对人。" },
        4 => Hexagram { number: 4, name: "蒙", full: "山水蒙", binary: 0b001010, judgment: "亨。匪我求童蒙，童蒙求我。初筮告，再三渎，渎则不告。利贞。", sense: "蒙昧未开，是要学要问的时候。问一次就够，反复试探反而不灵。" },
        5 => Hexagram { number: 5, name: "需", full: "水天需", binary: 0b010111, judgment: "有孚，光亨，贞吉。利涉大川。", sense: "云在天上，雨还没落。该等的就等——等不是干耗，是把自己备好。" },
        6 => Hexagram { number: 6, name: "讼", full: "天水讼", binary: 0b111010, judgment: "有孚窒惕，中吉，终凶。利见大人，不利涉大川。", sense: "争。赢到底也算输，中途收手才是上策。" },
        7 => Hexagram { number: 7, name: "师", full: "地水师", binary: 0b000010, judgment: "贞，丈人吉，无咎。", sense: "聚众。要有规矩，要有主事的人，名正才言顺。" },
        8 => Hexagram { number: 8, name: "比", full: "水地比", binary: 0b010000, judgment: "吉。原筮，元永贞，无咎。不宁方来，后夫凶。", sense: "亲附。跟对人比什么都强，早跟比晚跟好。" },
        9 => Hexagram { number: 9, name: "小畜", full: "风天小畜", binary: 0b011111, judgment: "亨。密云不雨，自我西郊。", sense: "小有积蓄，力还不够。密云不雨，先攒着，别急着要结果。" },
        10 => Hexagram { number: 10, name: "履", full: "天泽履", binary: 0b111110, judgment: "履虎尾，不咥人，亨。", sense: "踩着虎尾走路。分寸就是性命，谨慎与礼数是护身的东西。" },
        11 => Hexagram { number: 11, name: "泰", full: "地天泰", binary: 0b000111, judgment: "小往大来，吉亨。", sense: "通。上下相交，气脉顺。顺境里要防的是把通当成当然。" },
        12 => Hexagram { number: 12, name: "否", full: "天地否", binary: 0b111000, judgment: "否之匪人，不利君子贞，大往小来。", sense: "塞。上下不交，说什么也不通。此时守住自己，不必硬推。" },
        13 => Hexagram { number: 13, name: "同人", full: "天火同人", binary: 0b111101, judgment: "同人于野，亨。利涉大川，利君子贞。", sense: "与人和同。在开阔处结伴，不在门户里结党。" },
        14 => Hexagram { number: 14, name: "大有", full: "火天大有", binary: 0b101111, judgment: "元亨。", sense: "所有甚丰。手里有东西的时候，考验的不是本事，是怎么拿。" },
        15 => Hexagram { number: 15, name: "谦", full: "地山谦", binary: 0b000001, judgment: "亨，君子有终。", sense: "谦。有实而能下，六爻里只有这一卦没有凶辞。" },
        16 => Hexagram { number: 16, name: "豫", full: "雷地豫", binary: 0b100000, judgment: "利建侯行师。", sense: "豫乐，也是预备。顺而动，乐要有节制，乐之前要先有准备。" },
        17 => Hexagram { number: 17, name: "随", full: "泽雷随", binary: 0b110100, judgment: "元亨利贞，无咎。", sense: "随顺时势。跟着走没错，要紧的是知道自己跟的是什么。" },
        18 => Hexagram { number: 18, name: "蛊", full: "山风蛊", binary: 0b001011, judgment: "元亨，利涉大川。先甲三日，后甲三日。", sense: "积弊成蛊。坏掉的东西要治，治之前先把怎么坏的弄清楚。" },
        19 => Hexagram { number: 19, name: "临", full: "地泽临", binary: 0b000110, judgment: "元亨利贞。至于八月有凶。", sense: "居高临下。势好的时候，要想到八月。" },
        20 => Hexagram { number: 20, name: "观", full: "风地观", binary: 0b011000, judgment: "盥而不荐，有孚颙若。", sense: "观。既在看别人，也在被别人看。诚敬比排场管用。" },
        21 => Hexagram { number: 21, name: "噬嗑", full: "火雷噬嗑", binary: 0b101100, judgment: "亨。利用狱。", sense: "咬合。中间卡着硬东西，非咬碎不能通——该断的就得断。" },
        22 => Hexagram { number: 22, name: "贲", full: "山火贲", binary: 0b001101, judgment: "亨。小利有攸往。", sense: "文饰。修饰只宜小用，本色才要紧。" },
        23 => Hexagram { number: 23, name: "剥", full: "山地剥", binary: 0b001000, judgment: "不利有攸往。", sense: "剥落。根基在一层层被削，此时宜止不宜进。" },
        24 => Hexagram { number: 24, name: "复", full: "地雷复", binary: 0b000100, judgment: "亨。出入无疾，朋来无咎。反复其道，七日来复，利有攸往。", sense: "一阳来复。回头就是路，重新开始不丢人。" },
        25 => Hexagram { number: 25, name: "无妄", full: "天雷无妄", binary: 0b111100, judgment: "元亨利贞。其匪正有眚，不利有攸往。", sense: "不妄。按本分做事就顺，动了歪念就有灾。" },
        26 => Hexagram { number: 26, name: "大畜", full: "山天大畜", binary: 0b001111, judgment: "利贞，不家食吉，利涉大川。", sense: "大积蓄。德与力都攒够了才谈得出山。" },
        27 => Hexagram { number: 27, name: "颐", full: "山雷颐", binary: 0b001100, judgment: "贞吉。观颐，自求口实。", sense: "养。看一个人拿什么养自己、养谁，就知道他是什么人。" },
        28 => Hexagram { number: 28, name: "大过", full: "泽风大过", binary: 0b110011, judgment: "栋桡，利有攸往，亨。", sense: "过甚。梁都要压弯了，非常的时候只能用非常的分量。" },
        29 => Hexagram { number: 29, name: "坎", full: "坎为水", binary: 0b010010, judgment: "习坎，有孚，维心亨，行有尚。", sense: "重重险。险里能靠的只有一颗定住的心。" },
        30 => Hexagram { number: 30, name: "离", full: "离为火", binary: 0b101101, judgment: "利贞，亨。畜牝牛，吉。", sense: "附丽。火要附着在东西上才亮，人要有可依之处。" },
        31 => Hexagram { number: 31, name: "咸", full: "泽山咸", binary: 0b110001, judgment: "亨，利贞，取女吉。", sense: "感应。无心之感最真，感应是从虚而受来的。" },
        32 => Hexagram { number: 32, name: "恒", full: "雷风恒", binary: 0b100011, judgment: "亨，无咎，利贞，利有攸往。", sense: "恒久。立得住是因为守常，不是因为猛。" },
        33 => Hexagram { number: 33, name: "遁", full: "天山遁", binary: 0b111001, judgment: "亨，小利贞。", sense: "退避。该退的时候退，退不是败。" },
        34 => Hexagram { number: 34, name: "大壮", full: "雷天大壮", binary: 0b100111, judgment: "利贞。", sense: "壮盛。力气大的时候最容易用错，壮而守正是全部。" },
        35 => Hexagram { number: 35, name: "晋", full: "火地晋", binary: 0b101000, judgment: "康侯用锡马蕃庶，昼日三接。", sense: "进。光明在上了，是向上走的时候。" },
        36 => Hexagram { number: 36, name: "明夷", full: "地火明夷", binary: 0b000101, judgment: "利艰贞。", sense: "明入地中。光被压住了，此时把光收起来，藏明于晦。" },
        37 => Hexagram { number: 37, name: "家人", full: "风火家人", binary: 0b011101, judgment: "利女贞。", sense: "内。一个地方的风气，是从里面先立起来的。" },
        38 => Hexagram { number: 38, name: "睽", full: "火泽睽", binary: 0b101110, judgment: "小事吉。", sense: "乖离。同中有异，容得下异才走得下去。" },
        39 => Hexagram { number: 39, name: "蹇", full: "水山蹇", binary: 0b010001, judgment: "利西南，不利东北。利见大人，贞吉。", sense: "跛行难进。难就绕，别拿头去撞。" },
        40 => Hexagram { number: 40, name: "解", full: "雷水解", binary: 0b100010, judgment: "利西南，无所往，其来复吉。有攸往，夙吉。", sense: "解冻。该散的散了，动作要早。" },
        41 => Hexagram { number: 41, name: "损", full: "山泽损", binary: 0b001110, judgment: "有孚，元吉，无咎，可贞，利有攸往。曷之用？二簋可用享。", sense: "减损。少而诚，比多而虚有用。" },
        42 => Hexagram { number: 42, name: "益", full: "风雷益", binary: 0b011100, judgment: "利有攸往，利涉大川。", sense: "增益。损上益下，越给越多。" },
        43 => Hexagram { number: 43, name: "夬", full: "泽天夬", binary: 0b110111, judgment: "扬于王庭，孚号有厉。告自邑，不利即戎，利有攸往。", sense: "决断。该断的要断，但要在明处断，不靠蛮力。" },
        44 => Hexagram { number: 44, name: "姤", full: "天风姤", binary: 0b111011, judgment: "女壮，勿用取女。", sense: "不期而遇。一阴初生，遇上得太容易的东西要留神。" },
        45 => Hexagram { number: 45, name: "萃", full: "泽地萃", binary: 0b110000, judgment: "亨。王假有庙，利见大人，亨，利贞。用大牲吉，利有攸往。", sense: "聚。人聚起来，要有由头，也要有主心骨。" },
        46 => Hexagram { number: 46, name: "升", full: "地风升", binary: 0b000011, judgment: "元亨，用见大人，勿恤，南征吉。", sense: "上升。像树一样长，不急，积小成高。" },
        47 => Hexagram { number: 47, name: "困", full: "泽水困", binary: 0b110010, judgment: "亨，贞，大人吉，无咎。有言不信。", sense: "困。说了也没人信的时候，就少说，守住里面的那点通。" },
        48 => Hexagram { number: 48, name: "井", full: "水风井", binary: 0b010011, judgment: "改邑不改井，无丧无得，往来井井。汔至亦未繘井，羸其瓶，凶。", sense: "井。滋养人的本事在井底，打不上来就等于没有。" },
        49 => Hexagram { number: 49, name: "革", full: "泽火革", binary: 0b110101, judgment: "己日乃孚，元亨利贞，悔亡。", sense: "变革。改要等到时候，改得对才没有悔。" },
        50 => Hexagram { number: 50, name: "鼎", full: "火风鼎", binary: 0b101011, judgment: "元吉，亨。", sense: "鼎新。把东西重新煮过一遍，换一副骨头。" },
        51 => Hexagram { number: 51, name: "震", full: "震为雷", binary: 0b100100, judgment: "亨。震来虩虩，笑言哑哑。震惊百里，不丧匕鬯。", sense: "动。雷来了先怕后笑，动里不失自己的分寸。" },
        52 => Hexagram { number: 52, name: "艮", full: "艮为山", binary: 0b001001, judgment: "艮其背，不获其身，行其庭，不见其人，无咎。", sense: "止。该停就停住。止住自己比止住别人难。" },
        53 => Hexagram { number: 53, name: "渐", full: "风山渐", binary: 0b011001, judgment: "女归吉，利贞。", sense: "渐进。按次序来，慢就是快。" },
        54 => Hexagram { number: 54, name: "归妹", full: "雷泽归妹", binary: 0b100110, judgment: "征凶，无攸利。", sense: "失序而合。名分不正的关系，再往前就是凶。" },
        55 => Hexagram { number: 55, name: "丰", full: "雷火丰", binary: 0b100101, judgment: "亨，王假之，勿忧，宜日中。", sense: "丰大。像正午一样亮，但要记得正午之后就是斜阳。" },
        56 => Hexagram { number: 56, name: "旅", full: "火山旅", binary: 0b101001, judgment: "小亨，旅贞吉。", sense: "旅。人在外头，谦下就顺。" },
        57 => Hexagram { number: 57, name: "巽", full: "巽为风", binary: 0b011011, judgment: "小亨，利有攸往，利见大人。", sense: "入。风无孔不入，柔而能进，重复比用力有效。" },
        58 => Hexagram { number: 58, name: "兑", full: "兑为泽", binary: 0b110110, judgment: "亨，利贞。", sense: "悦。说服人、被人喜欢，都要走正道。" },
        59 => Hexagram { number: 59, name: "涣", full: "风水涣", binary: 0b011010, judgment: "亨。王假有庙，利涉大川，利贞。", sense: "涣散。散得开才聚得拢，先把隔阂化开。" },
        60 => Hexagram { number: 60, name: "节", full: "水泽节", binary: 0b010110, judgment: "亨。苦节不可贞。", sense: "节制。有度才通；苦着自己去节，守不长。" },
        61 => Hexagram { number: 61, name: "中孚", full: "风泽中孚", binary: 0b011110, judgment: "豚鱼吉，利涉大川，利贞。", sense: "信在中。诚到连豚鱼都能感，才涉得过大川。" },
        62 => Hexagram { number: 62, name: "小过", full: "雷山小过", binary: 0b100001, judgment: "亨，利贞。可小事，不可大事。飞鸟遗之音，不宜上，宜下，大吉。", sense: "小有过越。小事上稍微过一点无妨，大事上不行；宜下不宜上。" },
        63 => Hexagram { number: 63, name: "既济", full: "水火既济", binary: 0b010101, judgment: "亨，小利贞，初吉终乱。", sense: "已成。做成了，反而要防乱——初吉终乱。" },
        _ => Hexagram { number: 64, name: "未济", full: "火水未济", binary: 0b101010, judgment: "亨，小狐汔济，濡其尾，无攸利。", sense: "未成。还没过河，小狐湿了尾巴，收尾要审慎。" },
    }
}

fn number_for(binary: u8) -> (n: u8)
    requires
        binary < 64,
    ensures
        n == number_of(binary),
{
    reveal(number_of);
    match binary {
        0 => 2,
        1 => 15,
        2 => 7,
        3 => 46,
        4 => 24,
        5 => 36,
        6 => 19,
        7 => 11,
        8 => 23,
        9 => 52,
        10 => 4,
        11 => 18,
        12 => 27,
        13 => 22,
        14 => 41,
        15 => 26,
        16 => 8,
        17 => 39,
        18 => 29,
        19 => 48,
        20 => 3,
        21 => 63,
        22 => 60,
        23 => 5,
        24 => 20,
        25 => 53,
        26 => 59,
        27 => 57,
        28 => 42,
        29 => 37,
        30 => 61,
        31 => 9,
        32 => 16,
        33 => 62,
        34 => 40,
        35 => 32,
        36 => 51,
        37 => 55,
        38 => 54,
        39 => 34,
        40 => 35,
        41 => 56,
        42 => 64,
        43 => 50,
        44 => 21,
        45 => 30,
        46 => 38,
        47 => 14,
        48 => 45,
        49 => 31,
        50 => 47,
        51 => 28,
        52 => 17,
        53 => 49,
        54 => 58,
        55 => 43,
        56 => 12,
        57 => 33,
        58 => 6,
        59 => 44,
        60 => 25,
        61 => 13,
        62 => 10,
        _ => 1,
    }
}

/// Every six-line pattern has exactly one entry: the pattern's number leads
/// back to an entry drawn with that very pattern.
pub proof fn lemma_table_covers(binary: u8)
    requires
        binary < 64,
    ensures
        1 <= number_of(binary) <= 64,
        table(number_of(binary)).binary == binary,
        table(number_of(binary)).number == number_of(binary),
{
    reveal(table);
    reveal(number_of);
    match binary {
        0 => {},
        1 => {},
        2 => {},
        3 => {},
        4 => {},
        5 => {},
        6 => {},
        7 => {},
        8 => {},
        9 => {},
        10 => {},
        11 => {},
        12 => {},
        13 => {},
        14 => {},
        15 => {},
        16 => {},
        17 => {},
        18 => {},
        19 => {},
        20 => {},
        21 => {},
        22 => {},
        23 => {},
        24 => {},
        25 => {},
        26 => {},
        27 => {},
        28 => {},
        29 => {},
        30 => {},
        31 => {},
        32 => {},
        33 => {},
        34 => {},
        35 => {},
        36 => {},
        37 => {},
        38 => {},
        39 => {},
        40 => {},
        41 => {},
        42 => {},
        43 => {},
        44 => {},
        45 => {},
        46 => {},
        47 => {},
        48 => {},
        49 => {},
        50 => {},
        51 => {},
        52 => {},
        53 => {},
        54 => {},
        55 => {},
        56 => {},
        57 => {},
        58 => {},
        59 => {},
        60 => {},
        61 => {},
        62 => {},
        _ => {},
    }
}

/// Every number in the Sequence order names one pattern, and no two numbers
/// share it.
pub proof fn lemma_table_numbers(number: u8)
    requires
        1 <= number <= 64,
    ensures
        table(number).number == number,
        table(number).binary < 64,
        number_of(table(number).binary) == number,
{
    reveal(table);
    reveal(number_of);
    match number {
        1 => {},
        2 => {},
        3 => {},
        4 => {},
        5 => {},
        6 => {},
        7 => {},
        8 => {},
        9 => {},
        10 => {},
        11 => {},
        12 => {},
        13 => {},
        14 => {},
        15 => {},
        16 => {},
        17 => {},
        18 => {},
        19 => {},
        20 => {},
        21 => {},
        22 => {},
        23 => {},
        24 => {},
        25 => {},
        26 => {},
        27 => {},
        28 => {},
        29 => {},
        30 => {},
        31 => {},
        32 => {},
        33 => {},
        34 => {},
        35 => {},
        36 => {},
        37 => {},
        38 => {},
        39 => {},
        40 => {},
        41 => {},
        42 => {},
        43 => {},
        44 => {},
        45 => {},
        46 => {},
        47 => {},
        48 => {},
        49 => {},
        50 => {},
        51 => {},
        52 => {},
        53 => {},
        54 => {},
        55 => {},
        56 => {},
        57 => {},
        58 => {},
        59 => {},
        60 => {},
        61 => {},
        62 => {},
        63 => {},
        _ => {},
    }
}

/// The hexagram drawn by six lines; the table covers all sixty-four.
pub open spec fn hexagram_of(binary: u8) -> Hexagram {
    table(number_of(binary & 63))
}

/// Looks a hexagram up by its six lines.
pub fn hexagram(binary: u8) -> (h: Hexagram)
    ensures
        h == hexagram_of(binary),
        h.binary == binary & 63,
        1 <= h.number <= 64,
{
    let six = binary & 0b111111;
    assert(six < 64) by (bit_vector)
        requires
            six == binary & 63,
    ;
    proof {
        lemma_table_covers(six);
    }
    hexagram_numbered(number_for(six))
}

// ==================== the stalk method ====================

/// splitmix64: the state advances by a fixed odd constant ...
pub open spec fn mix_step(state: u64) -> u64 {
    state.wrapping_add(0x9E37_79B9_7F4A_7C15)
}

/// ... and the output is the state run through the finaliser.
#[verifier::opaque]
pub open spec fn mix_out(state: u64) -> u64 {
    let z1 = (state ^ (state >> 30u64)).wrapping_mul(0xBF58_476D_1CE4_E5B9);
    let z2 = (z1 ^ (z1 >> 27u64)).wrapping_mul(0x94D0_49BB_1331_11EB);
    z2 ^ (z2 >> 31u64)
}

/// splitmix64: a deterministic, evenly spread pseudo-random source.
struct SplitMix64(u64);

impl SplitMix64 {
    fn new(seed: u64) -> (rng: Self)
        ensures
            rng.0 == seed,
    {
        Self(seed)
    }

    fn next(&mut self) -> (out: u64)
        ensures
            final(self).0 == mix_step(old(self).0),
            out == mix_out(final(self).0),
    {
        reveal(mix_out);
        self.0 = self.0.wrapping_add(0x9E37_79B9_7F4A_7C15);
        let mut z = self.0;
        z = (z ^ (z >> 30)).wrapping_mul(0xBF58_476D_1CE4_E5B9);
        z = (z ^ (z >> 27)).wrapping_mul(0x94D0_49BB_1331_11EB);
        z ^ (z >> 31)
    }

    /// A value in `0..bound`.
    fn below(&mut self, bound: u64) -> (out: u64)
        requires
            bound > 0,
        ensures
            final(self).0 == mix_step(old(self).0),
            out == mix_out(final(self).0) % bound,
            out < bound,
    {
        self.next() % bound
    }
}

/// What is left of a pile counted off by fours; an even count leaves four.
pub open spec fn pile_remainder(pile: int) -> int {
    if pile % 4 == 0 {
        4
    } else {
        pile % 4
    }
}

fn remainder(pile: u32) -> (r: u32)
    ensures
        r == pile_remainder(pile as int),
        1 <= r <= 4,
{
    match pile % 4 {
        0 => 4,
        other => other,
    }
}

/// One change: split the stalks in two (each side at least one), hang one
/// from the right, count both sides off by fours and set the remainders aside.
/// Returns the new generator state and the stalks still in play.
#[verifier::opaque]
pub open spec fn change(state: u64, remaining: int) -> (u64, int) {
    let next = mix_step(state);
    let left = 1 + (mix_out(next) % ((remaining - 1) as u64)) as int;
    let right = remaining - left - 1;
    (next, remaining - (pile_remainder(left) + pile_remainder(right) + 1))
}

/// Three changes from the forty-nine stalks make one line.
#[verifier::opaque]
pub open spec fn three_changes(state: u64) -> (u64, int) {
    let first = change(state, 49);
    let second = change(first.0, first.1);
    change(second.0, second.1)
}

/// The stalks left after the three changes of the `index`-th line
/// (counted from zero) of a cast seeded with `seed`, with the generator
/// state after them.
pub open spec fn line_draw(seed: u64, index: nat) -> (u64, int)
    decreases index,
{
    if index == 0 {
        three_changes(seed)
    } else {
        three_changes(line_draw(seed, (index - 1) as nat).0)
    }
}

/// Thirty-six, thirty-two, twenty-eight or twenty-four stalks, divided by
/// four, give nine, eight, seven or six.
pub open spec fn line_of(stalks: int) -> Line {
    if stalks == 36 {
        Line::OldYang
    } else if stalks == 32 {
        Line::YoungYin
    } else if stalks == 28 {
        Line::YoungYang
    } else {
        Line::OldYin
    }
}

pub open spec fn is_stalk_count(stalks: int) -> bool {
    stalks == 24 || stalks == 28 || stalks == 32 || stalks == 36
}

proof fn lemma_change(state: u64, remaining: int)
    requires
        remaining == 49 || remaining == 44 || remaining == 40 || remaining == 36 || remaining
            == 32,
    ensures
        remaining == 49 ==> (change(state, remaining).1 == 44 || change(state, remaining).1
            == 40),
        remaining != 49 ==> (change(state, remaining).1 == remaining - 4 || change(
            state,
            remaining,
        ).1 == remaining - 8),
{
    reveal(change);
    let next = mix_step(state);
    let m = (remaining - 1) as u64;
    let x = mix_out(next) % m;
    assert(x < m);
    let left = 1 + x as int;
    let right = remaining - left - 1;
    assert(0 <= right);
    assert(left + right == remaining - 1);
}

/// The law of the stalk method: three changes always leave 36, 32, 28 or 24.
pub proof fn lemma_three_changes(state: u64)
    ensures
        is_stalk_count(three_changes(state).1),
{
    reveal(three_changes);
    let first = change(state, 49);
    lemma_change(state, 49);
    lemma_change(first.0, first.1);
    let second = change(first.0, first.1);
    lemma_change(second.0, second.1);
}

/// A line's number is its stalks divided by four.
pub proof fn lemma_line_number(stalks: int)
    requires
        is_stalk_count(stalks),
    ensures
        line_of(stalks).number() * 4 == stalks,
{
}

fn one_change(rng: &mut SplitMix64, remaining: u32) -> (left_over: u32)
    requires
        remaining == 49 || remaining == 44 || remaining == 40 || remaining == 36 || remaining
            == 32,
    ensures
        (final(rng).0, left_over as int) == change(old(rng).0, remaining as int),
{
    reveal(change);
    proof {
        lemma_change(rng.0, remaining as int);
    }
    let left = 1 + rng.below(remaining as u64 - 1) as u32;
    let right = remaining - left - 1;
    remaining - (remainder(left) + remainder(right) + 1)
}

/// Three changes make one line: forty-nine stalks, and what is left after
/// the three changes, divided by four, is nine, eight, seven or six.
fn one_line(rng: &mut SplitMix64) -> (out: (Line, u8))
    ensures
        three_changes(old(rng).0) == (final(rng).0, out.1 as int),
        out.0 == line_of(out.1 as int),
        is_stalk_count(out.1 as int),
{
    reveal(three_changes);
    proof {
        lemma_three_changes(rng.0);
        lemma_change(rng.0, 49);
    }
    let first = one_change(rng, 49);
    proof {
        lemma_change(rng.0, first as int);
    }
    let second = one_change(rng, first);
    let remaining = one_change(rng, second);
    let line = if remaining == 36 {
        Line::OldYang
    } else if remaining == 32 {
        Line::YoungYin
    } else if remaining == 28 {
        Line::YoungYang
    } else {
        Line::OldYin
    };
    (line, remaining as u8)
}

// ==================== a cast ====================

/// The weight of the `index`-th line in a six-line pattern.
pub open spec fn bit(index: int) -> int {
    if index == 0 {
        1
    } else if index == 1 {
        2
    } else if index == 2 {
        4
    } else if index == 3 {
        8
    } else if index == 4 {
        16
    } else {
        32
    }
}

/// The pattern of the first `count` lines: yang lines set their bit.
pub open spec fn yang_bits(lines: Seq<Line>, count: int) -> int
    decreases count,
{
    if count <= 0 {
        0
    } else {
        yang_bits(lines, count - 1) + if lines[count - 1].is_yang() {
            bit(count - 1)
        } else {
            0
        }
    }
}

/// The pattern after the moving lines have turned over.
pub open spec fn turned_bits(lines: Seq<Line>, count: int) -> int
    decreases count,
{
    if count <= 0 {
        0
    } else {
        turned_bits(lines, count - 1) + if lines[count - 1].is_yang()
            != lines[count - 1].is_changing() {
            bit(count - 1)
        } else {
            0
        }
    }
}

/// Positions of the moving lines among the first `count`, from the bottom up.
pub open spec fn moving(lines: Seq<Line>, count: int) -> Seq<usize>
    decreases count,
{
    if count <= 0 {
        seq![]
    } else {
        moving(lines, count - 1) + if lines[count - 1].is_changing() {
            seq![(count - 1) as usize]
        } else {
            seq![]
        }
    }
}

/// Two to the power `count`, for up to six lines.
pub open spec fn span(count: int) -> int {
    if count <= 0 {
        1
    } else if count == 1 {
        2
    } else if count == 2 {
        4
    } else if count == 3 {
        8
    } else if count == 4 {
        16
    } else if count == 5 {
        32
    } else {
        64
    }
}

proof fn lemma_bits_bounded(lines: Seq<Line>, count: int)
    requires
        0 <= count <= 6,
    ensures
        0 <= yang_bits(lines, count) < span(count),
        0 <= turned_bits(lines, count) < span(count),
        yang_bits(lines, count) < 64,
        turned_bits(lines, count) < 64,
    decreases count,
{
    if count > 0 {
        lemma_bits_bounded(lines, count - 1);
    }
}

/// What a cast brings: six lines, the stalks that made them, the primary
/// hexagram, and the changed hexagram when some lines are moving.
pub struct Cast {
    /// The six lines; index 0 is the first (bottom) line.
    pub lines: [Line; 6],
    /// Stalks left after each line's three changes: 36, 32, 28 or 24.
    pub stalks: [u8; 6],
    /// The primary hexagram.
    pub primary: Hexagram,
    /// The changed hexagram; `None` when all six lines are at rest.
    pub changed: Option<Hexagram>,
    /// Positions of the moving lines, from the bottom up.
    pub changing: Vec<usize>,
}

/// The reading rule for a count of moving lines (after Zhu Xi).
pub open spec fn rule_for(count: int) -> &'static str {
    if count == 0 {
        "六爻皆静，以本卦卦辞为占"
    } else if count == 1 {
        "一爻变，以本卦之变爻为占"
    } else if count == 2 {
        "二爻变，以本卦两条变爻为占，上爻为主"
    } else if count == 3 {
        "三爻变，本卦与之卦并看，以本卦为主"
    } else if count == 4 {
        "四爻变，以之卦两条不变爻为占，下爻为主"
    } else if count == 5 {
        "五爻变，以之卦之不变爻为占"
    } else {
        "六爻皆变，以之卦卦辞为占"
    }
}

/// Stalk counts joined with ` · `, from the first line up.
pub open spec fn dotted(values: Seq<u8>) -> Seq<char>
    decreases values.len(),
{
    if values.len() == 0 {
        seq![]
    } else if values.len() == 1 {
        decimal(values[0] as nat)
    } else {
        dotted(values.drop_last()) + seq![' ', '·', ' '] + decimal(values.last() as nat)
    }
}

/// One line as drawn: yin or yang, and whether it is moving.
#[derive(Debug, Clone, Copy, PartialEq, Eq, Default, Structural)]
pub struct DrawnLine {
    pub yang: bool,
    pub changing: bool,
}

impl Cast {
    /// How to read the cast, after the count of moving lines.
    pub fn rule(&self) -> (r: &'static str)
        ensures
            r == rule_for(self.changing@.len() as int),
    {
        let count = self.changing.len();
        if count == 0 {
            "六爻皆静，以本卦卦辞为占"
        } else if count == 1 {
            "一爻变，以本卦之变爻为占"
        } else if count == 2 {
            "二爻变，以本卦两条变爻为占，上爻为主"
        } else if count == 3 {
            "三爻变，本卦与之卦并看，以本卦为主"
        } else if count == 4 {
            "四爻变，以之卦两条不变爻为占，下爻为主"
        } else if count == 5 {
            "五爻变，以之卦之不变爻为占"
        } else {
            "六爻皆变，以之卦卦辞为占"
        }
    }

    /// The stalks of the three changes, first line to top line:
    /// 「36 · 32 · 28 · 24 · 36 · 32」.
    pub fn stalks_text(&self) -> (out: String)
        ensures
            out@ == dotted(self.stalks@),
    {
        let mut out = String::new();
        let mut index: usize = 0;
        while index < 6
            invariant
                index <= 6,
                out@ == dotted(self.stalks@.take(index as int)),
            decreases 6 - index,
        {
            let ghost before = self.stalks@.take(index as int);
            if index > 0 {
                push_str(&mut out, " · ");
                proof {
                    reveal_strlit(" · ");
                }
            }
            let digits = u64_digits(self.stalks[index] as u64);
            push_chars(&mut out, &digits);
            index += 1;
            assert(self.stalks@.take(index as int).drop_last() =~= before);
            assert(out@ =~= dotted(self.stalks@.take(index as int)));
        }
        assert(self.stalks@.take(6) =~= self.stalks@);
        out
    }

    /// The titles of the moving lines, such as 九三.
    pub fn changing_titles(&self) -> (out: Vec<String>)
        requires
            forall|i: int| 0 <= i < self.changing@.len() ==> self.changing@[i] < 6,
        ensures
            out@.len() == self.changing@.len(),
            forall|i: int|
                0 <= i < out@.len() ==> (#[trigger] out@[i])@ == title_of(
                    self.changing@[i] as int,
                    self.lines@[self.changing@[i] as int].is_yang(),
                ),
    {
        let mut out: Vec<String> = Vec::new();
        let mut k: usize = 0;
        while k < self.changing.len()
            invariant
                k <= self.changing@.len(),
                out@.len() == k,
                forall|i: int| 0 <= i < self.changing@.len() ==> self.changing@[i] < 6,
                forall|i: int|
                    0 <= i < k ==> (#[trigger] out@[i])@ == title_of(
                        self.changing@[i] as int,
                        self.lines@[self.changing@[i] as int].is_yang(),
                    ),
            decreases self.changing@.len() - k,
        {
            let index = self.changing[k];
            out.push(line_title(index, self.lines[index].yang()));
            k += 1;
        }
        out
    }

    /// The six lines as drawn, first line to top line; moving lines marked.
    pub fn drawn(&self) -> (out: [DrawnLine; 6])
        ensures
            forall|i: int|
                0 <= i < 6 ==> (#[trigger] out@[i]) == (DrawnLine {
                    yang: self.lines@[i].is_yang(),
                    changing: self.lines@[i].is_changing(),
                }),
    {
        let draw = |index: usize| -> (d: DrawnLine)
            requires
                index < 6,
            ensures
                d == (DrawnLine {
                    yang: self.lines@[index as int].is_yang(),
                    changing: self.lines@[index as int].is_changing(),
                }),
            { DrawnLine { yang: self.lines[index].yang(), changing: self.lines[index].changing() } };
        let out = [draw(0), draw(1), draw(2), draw(3), draw(4), draw(5)];
        assert forall|i: int| 0 <= i < 6 implies (#[trigger] out@[i]) == (DrawnLine {
            yang: self.lines@[i].is_yang(),
            changing: self.lines@[i].is_changing(),
        }) by {
            if i == 0 {
            } else if i == 1 {
            } else if i == 2 {
            } else if i == 3 {
            } else if i == 4 {
            } else {
            }
        }
        out
    }
}

/// Lines and stalks are those the stalk method draws from `seed`, line by line.
pub open spec fn drawn_from(seed: u64, lines: Seq<Line>, stalks: Seq<u8>) -> bool {
    &&& lines.len() == 6
    &&& stalks.len() == 6
    &&& forall|i: int|
        0 <= i < 6 ==> (#[trigger] stalks[i]) as int == line_draw(seed, i as nat).1 && lines[i]
            == line_of(line_draw(seed, i as nat).1)
}

/// The six lines of a cast seeded with `seed`, with their stalks.
fn draw_lines(seed: u64) -> (out: ([Line; 6], [u8; 6]))
    ensures
        drawn_from(seed, out.0@, out.1@),
        forall|i: int|
            0 <= i < 6 ==> is_stalk_count(#[trigger] out.1@[i] as int) && out.0@[i].number() * 4
                == out.1@[i],
{
    let mut rng = SplitMix64::new(seed);
    let (l0, s0) = one_line(&mut rng);
    assert(line_draw(seed, 0) == (rng.0, s0 as int));
    let (l1, s1) = one_line(&mut rng);
    assert(line_draw(seed, 1) == (rng.0, s1 as int));
    let (l2, s2) = one_line(&mut rng);
    assert(line_draw(seed, 2) == (rng.0, s2 as int));
    let (l3, s3) = one_line(&mut rng);
    assert(line_draw(seed, 3) == (rng.0, s3 as int));
    let (l4, s4) = one_line(&mut rng);
    assert(line_draw(seed, 4) == (rng.0, s4 as int));
    let (l5, s5) = one_line(&mut rng);
    assert(line_draw(seed, 5) == (rng.0, s5 as int));
    let lines = [l0, l1, l2, l3, l4, l5];
    let stalks = [s0, s1, s2, s3, s4, s5];
    proof {
        lemma_line_number(s0 as int);
        lemma_line_number(s1 as int);
        lemma_line_number(s2 as int);
        lemma_line_number(s3 as int);
        lemma_line_number(s4 as int);
        lemma_line_number(s5 as int);
        assert forall|i: int| 0 <= i < 6 implies (#[trigger] stalks@[i]) as int == line_draw(
            seed,
            i as nat,
        ).1 && lines@[i] == line_of(line_draw(seed, i as nat).1) && is_stalk_count(
            stalks@[i] as int,
        ) && lines@[i].number() * 4 == stalks@[i] by {
            if i == 0 {
            } else if i == 1 {
            } else if i == 2 {
            } else if i == 3 {
            } else if i == 4 {
            } else {
            }
        }
    }
    (lines, stalks)
}

/// The pattern of the six lines, the pattern once the moving lines have
/// turned, and where the moving lines are.
fn read_pattern(lines: &[Line; 6]) -> (out: (u8, u8, Vec<usize>))
    ensures
        out.0 as int == yang_bits(lines@, 6),
        out.1 as int == turned_bits(lines@, 6),
        out.2@ == moving(lines@, 6),
        out.0 < 64,
        out.1 < 64,
{
    let mut binary: u8 = 0;
    let mut turned: u8 = 0;
    let mut changing: Vec<usize> = Vec::new();
    let mut index: usize = 0;
    let weights: [u8; 6] = [1, 2, 4, 8, 16, 32];
    while index < 6
        invariant
            index <= 6,
            weights@ == seq![1u8, 2u8, 4u8, 8u8, 16u8, 32u8],
            binary as int == yang_bits(lines@, index as int),
            turned as int == turned_bits(lines@, index as int),
            changing@ == moving(lines@, index as int),
        decreases 6 - index,
    {
        let line = lines[index];
        proof {
            lemma_bits_bounded(lines@, index as int + 1);
        }
        if line.yang() {
            binary = binary + weights[index];
        }
        if line.yang() != line.changing() {
            turned = turned + weights[index];
        }
        if line.changing() {
            changing.push(index);
        }
        index += 1;
    }
    proof {
        lemma_bits_bounded(lines@, 6);
    }
    (binary, turned, changing)
}

/// Casts from a seed. The seed comes from the person's material, so the same
/// material always casts the same hexagram.
pub fn cast_from(seed: u64) -> (cast: Cast)
    ensures
        drawn_from(seed, cast.lines@, cast.stalks@),
        forall|i: int|
            0 <= i < 6 ==> is_stalk_count(#[trigger] cast.stalks@[i] as int)
                && cast.lines@[i].number() * 4 == cast.stalks@[i],
        cast.primary == hexagram_of(yang_bits(cast.lines@, 6) as u8),
        cast.primary.binary == yang_bits(cast.lines@, 6),
        cast.changing@ == moving(cast.lines@, 6),
        cast.changed == if cast.changing@.len() == 0 {
            None
        } else {
            Some(hexagram_of(turned_bits(cast.lines@, 6) as u8))
        },
        cast.changed matches Some(h) ==> h.binary == turned_bits(cast.lines@, 6),
{
    let drawn = draw_lines(seed);
    let lines = drawn.0;
    let stalks = drawn.1;
    let (binary, turned, changing) = read_pattern(&lines);
    let primary = hexagram(binary);
    assert(binary & 63 == binary) by (bit_vector)
        requires
            binary < 64,
    ;
    assert(turned & 63 == turned) by (bit_vector)
        requires
            turned < 64,
    ;
    let changed = if changing.len() == 0 {
        None
    } else {
        Some(hexagram(turned))
    };
    Cast { lines, stalks, primary, changed, changing }
}

// ==================== the seed ====================

/// The FNV-1a offset basis.
pub open spec fn fnv_offset() -> u64 {
    0xcbf2_9ce4_8422_2325
}

/// FNV-1a over a run of bytes, starting from `hash`.
pub open spec fn fnv_bytes(hash: u64, bytes: Seq<u8>) -> u64
    decreases bytes.len(),
{
    if bytes.len() == 0 {
        hash
    } else {
        (fnv_bytes(hash, bytes.drop_last()) ^ (bytes.last() as u64)).wrapping_mul(
            0x0000_0100_0000_01b3,
        )
    }
}

pub proof fn lemma_fnv_concat(hash: u64, a: Seq<u8>, b: Seq<u8>)
    ensures
        fnv_bytes(hash, a + b) == fnv_bytes(fnv_bytes(hash, a), b),
    decreases b.len(),
{
    if b.len() == 0 {
        assert(a + b =~= a);
    } else {
        assert((a + b).drop_last() =~= a + b.drop_last());
        lemma_fnv_concat(hash, a, b.drop_last());
    }
}

/// The eight little-endian bytes of a number.
pub open spec fn le_bytes(value: u64) -> Seq<u8> {
    seq![
        (value & 0xff) as u8,
        ((value >> 8u64) & 0xff) as u8,
        ((value >> 16u64) & 0xff) as u8,
        ((value >> 24u64) & 0xff) as u8,
        ((value >> 32u64) & 0xff) as u8,
        ((value >> 40u64) & 0xff) as u8,
        ((value >> 48u64) & 0xff) as u8,
        ((value >> 56u64) & 0xff) as u8,
    ]
}

/// The UTF-8 bytes of each sample, each followed by a unit separator.
pub open spec fn sample_bytes(samples: Seq<String>) -> Seq<u8>
    decreases samples.len(),
{
    if samples.len() == 0 {
        seq![]
    } else {
        sample_bytes(samples.drop_last()) + vstd::utf8::encode_utf8(samples.last()@) + seq![0x1fu8]
    }
}

/// The UTF-8 bytes of each word followed by its count.
pub open spec fn word_bytes(words: Seq<(String, u64)>) -> Seq<u8>
    decreases words.len(),
{
    if words.len() == 0 {
        seq![]
    } else {
        word_bytes(words.drop_last()) + vstd::utf8::encode_utf8(words.last().0@) + le_bytes(words.last().1)
    }
}

proof fn lemma_sample_bytes_read_the_text(a: Seq<String>, b: Seq<String>)
    requires
        a.len() == b.len(),
        forall|i: int| 0 <= i < a.len() ==> (#[trigger] a[i])@ == b[i]@,
    ensures
        sample_bytes(a) == sample_bytes(b),
    decreases a.len(),
{
    if a.len() > 0 {
        lemma_sample_bytes_read_the_text(a.drop_last(), b.drop_last());
        assert(a.last()@ == b.last()@);
    }
}

proof fn lemma_word_bytes_read_the_text(a: Seq<(String, u64)>, b: Seq<(String, u64)>)
    requires
        a.len() == b.len(),
        forall|i: int| 0 <= i < a.len() ==> (#[trigger] a[i]).0@ == b[i].0@ && a[i].1 == b[i].1,
    ensures
        word_bytes(a) == word_bytes(b),
    decreases a.len(),
{
    if a.len() > 0 {
        lemma_word_bytes_read_the_text(a.drop_last(), b.drop_last());
        assert(a.last().0@ == b.last().0@);
    }
}

/// The same material always gives the same seed: the seed reads the
/// material's numbers, the text of its samples, and its words with their
/// counts, and nothing else.
pub proof fn lemma_same_material_same_seed(
    user_id: i64,
    total: u64,
    first_time: i64,
    last_time: i64,
    active_days: u64,
    longest: u64,
    avg_len_bits: u64,
    samples_a: Seq<String>,
    samples_b: Seq<String>,
    words_a: Seq<(String, u64)>,
    words_b: Seq<(String, u64)>,
)
    requires
        samples_a.len() == samples_b.len(),
        forall|i: int| 0 <= i < samples_a.len() ==> (#[trigger] samples_a[i])@ == samples_b[i]@,
        words_a.len() == words_b.len(),
        forall|i: int|
            0 <= i < words_a.len() ==> (#[trigger] words_a[i]).0@ == words_b[i].0@ && words_a[i].1
                == words_b[i].1,
    ensures
        fnv_bytes(
            fnv_offset(),
            seed_bytes(user_id, total, first_time, last_time, active_days, longest, avg_len_bits, samples_a, words_a),
        ) == fnv_bytes(
            fnv_offset(),
            seed_bytes(user_id, total, first_time, last_time, active_days, longest, avg_len_bits, samples_b, words_b),
        ),
{
    lemma_sample_bytes_read_the_text(samples_a, samples_b);
    lemma_word_bytes_read_the_text(words_a, words_b);
}

/// One seed casts one way: two casts drawn from the same seed have the same
/// lines and the same stalks, and so the same hexagrams and moving lines.
pub proof fn lemma_same_seed_same_cast(
    seed: u64,
    lines_a: Seq<Line>,
    stalks_a: Seq<u8>,
    lines_b: Seq<Line>,
    stalks_b: Seq<u8>,
)
    requires
        drawn_from(seed, lines_a, stalks_a),
        drawn_from(seed, lines_b, stalks_b),
    ensures
        lines_a == lines_b,
        stalks_a == stalks_b,
{
    assert forall|i: int| 0 <= i < 6 implies lines_a[i] == lines_b[i] && stalks_a[i] == stalks_b[i] by {
        assert(stalks_a[i] as int == line_draw(seed, i as nat).1);
        assert(stalks_b[i] as int == line_draw(seed, i as nat).1);
    }
    assert(lines_a =~= lines_b);
    assert(stalks_a =~= stalks_b);
}

/// FNV-1a, kept as running state.
pub struct Fnv(pub u64);

impl Fnv {
    pub fn new() -> (f: Self)
        ensures
            f.0 == fnv_offset(),
    {
        Self(0xcbf2_9ce4_8422_2325)
    }

    pub fn eat(&mut self, bytes: &[u8])
        ensures
            final(self).0 == fnv_bytes(old(self).0, bytes@),
    {
        let ghost start = self.0;
        let mut i: usize = 0;
        while i < bytes.len()
            invariant
                i <= bytes@.len(),
                self.0 == fnv_bytes(start, bytes@.take(i as int)),
            decreases bytes@.len() - i,
        {
            assert(bytes@.take(i + 1).drop_last() =~= bytes@.take(i as int));
            self.0 ^= bytes[i] as u64;
            self.0 = self.0.wrapping_mul(0x0000_0100_0000_01b3);
            i += 1;
        }
        assert(bytes@.take(i as int) =~= bytes@);
    }

    pub fn number(&mut self, value: u64)
        ensures
            final(self).0 == fnv_bytes(old(self).0, le_bytes(value)),
    {
        let bytes: [u8; 8] = [
            (value & 0xff) as u8,
            ((value >> 8) & 0xff) as u8,
            ((value >> 16) & 0xff) as u8,
            ((value >> 24) & 0xff) as u8,
            ((value >> 32) & 0xff) as u8,
            ((value >> 40) & 0xff) as u8,
            ((value >> 48) & 0xff) as u8,
            ((value >> 56) & 0xff) as u8,
        ];
        assert(bytes@ =~= le_bytes(value));
        self.eat(bytes.as_slice());
    }
}

/// Everything the seed is made of, as bytes in feeding order.
pub open spec fn seed_bytes(
    user_id: i64,
    total: u64,
    first_time: i64,
    last_time: i64,
    active_days: u64,
    longest: u64,
    avg_len_bits: u64,
    samples: Seq<String>,
    words: Seq<(String, u64)>,
) -> Seq<u8> {
    le_bytes(user_id as u64) + le_bytes(total) + le_bytes(first_time as u64) + le_bytes(
        last_time as u64,
    ) + le_bytes(active_days) + le_bytes(longest) + le_bytes(avg_len_bits) + sample_bytes(samples)
        + word_bytes(words)
}

fn feed_number(fnv: &mut Fnv, value: u64, Ghost(fed): Ghost<Seq<u8>>)
    requires
        old(fnv).0 == fnv_bytes(fnv_offset(), fed),
    ensures
        final(fnv).0 == fnv_bytes(fnv_offset(), fed + le_bytes(value)),
{
    fnv.number(value);
    proof {
        lemma_fnv_concat(fnv_offset(), fed, le_bytes(value));
    }
}

/// The fingerprint of a person's material, the root of their cast: who they
/// are (number, counts, first and last time, span, longest message, average
/// length as its bit pattern), every sample they really wrote, and their
/// frequent words. FNV-1a: stable, not cryptographic.
pub fn seed_from(
    user_id: i64,
    total: u64,
    first_time: i64,
    last_time: i64,
    active_days: u64,
    longest: u64,
    avg_len_bits: u64,
    samples: &Vec<String>,
    words: &Vec<(String, u64)>,
) -> (seed: u64)
    ensures
        seed == fnv_bytes(
            fnv_offset(),
            seed_bytes(
                user_id,
                total,
                first_time,
                last_time,
                active_days,
                longest,
                avg_len_bits,
                samples@,
                words@,
            ),
        ),
{
    let mut fnv = Fnv::new();
    assert(fnv_bytes(fnv_offset(), Seq::<u8>::empty()) == fnv_offset());
    feed_number(&mut fnv, user_id as u64, Ghost(Seq::empty()));
    let ghost fed = Seq::<u8>::empty() + le_bytes(user_id as u64);
    feed_number(&mut fnv, total, Ghost(fed));
    let ghost fed = fed + le_bytes(total);
    feed_number(&mut fnv, first_time as u64, Ghost(fed));
    let ghost fed = fed + le_bytes(first_time as u64);
    feed_number(&mut fnv, last_time as u64, Ghost(fed));
    let ghost fed = fed + le_bytes(last_time as u64);
    feed_number(&mut fnv, active_days, Ghost(fed));
    let ghost fed = fed + le_bytes(active_days);
    feed_number(&mut fnv, longest, Ghost(fed));
    let ghost fed = fed + le_bytes(longest);
    feed_number(&mut fnv, avg_len_bits, Ghost(fed));
    let ghost head = fed + le_bytes(avg_len_bits);
    let mut i: usize = 0;
    while i < samples.len()
        invariant
            i <= samples@.len(),
            fnv.0 == fnv_bytes(fnv_offset(), head + sample_bytes(samples@.take(i as int))),
        decreases samples@.len() - i,
    {
        let ghost before = head + sample_bytes(samples@.take(i as int));
        let bytes = samples[i].as_str().as_bytes();
        fnv.eat(bytes);
        proof {
            lemma_fnv_concat(fnv_offset(), before, bytes@);
        }
        let separator: [u8; 1] = [0x1f];
        fnv.eat(separator.as_slice());
        proof {
            lemma_fnv_concat(fnv_offset(), before + bytes@, separator@);
            assert(samples@.take(i + 1).drop_last() =~= samples@.take(i as int));
            assert(separator@ =~= seq![0x1fu8]);
            assert(before + bytes@ + separator@ =~= head + sample_bytes(samples@.take(i + 1)));
        }
        i += 1;
    }
    assert(samples@.take(i as int) =~= samples@);
    let ghost middle = head + sample_bytes(samples@);
    let mut k: usize = 0;
    while k < words.len()
        invariant
            k <= words@.len(),
            fnv.0 == fnv_bytes(fnv_offset(), middle + word_bytes(words@.take(k as int))),
        decreases words@.len() - k,
    {
        let ghost before = middle + word_bytes(words@.take(k as int));
        let bytes = words[k].0.as_str().as_bytes();
        fnv.eat(bytes);
        proof {
            lemma_fnv_concat(fnv_offset(), before, bytes@);
        }
        feed_number(&mut fnv, words[k].1, Ghost(before + bytes@));
        proof {
            assert(words@.take(k + 1).drop_last() =~= words@.take(k as int));
            assert(before + bytes@ + le_bytes(words@[k as int].1) =~= middle + word_bytes(
                words@.take(k + 1),
            ));
        }
        k += 1;
    }
    assert(words@.take(k as int) =~= words@);
    assert(middle + word_bytes(words@) =~= seed_bytes(
        user_id,
        total,
        first_time,
        last_time,
        active_days,
        longest,
        avg_len_bits,
        samples@,
        words@,
    ));
    fnv.0
}

proof fn lemma_digit(b: Seq<int>, index: int)
    requires
        b.len() == 6,
        forall|j: int| 0 <= j < 6 ==> b[j] == 0 || b[j] == 1,
        0 <= index < 6,
    ensures
        ((b[0] + 2 * b[1] + 4 * b[2] + 8 * b[3] + 16 * b[4] + 32 * b[5]) / bit(index)) % 2
            == b[index],
{
    let (b0, b1, b2, b3, b4, b5) = (b[0], b[1], b[2], b[3], b[4], b[5]);
    assert(0 <= b0 <= 1 && 0 <= b1 <= 1 && 0 <= b2 <= 1 && 0 <= b3 <= 1 && 0 <= b4 <= 1 && 0
        <= b5 <= 1);
    if index == 0 {
    } else if index == 1 {
    } else if index == 2 {
    } else if index == 3 {
    } else if index == 4 {
    } else {
    }
}

pub open spec fn yang_digit(line: Line) -> int {
    if line.is_yang() {
        1
    } else {
        0
    }
}

pub open spec fn turned_digit(line: Line) -> int {
    if line.is_yang() != line.is_changing() {
        1
    } else {
        0
    }
}

/// The moving lines turn over, and only they: line `index` of the changed
/// pattern is yang exactly when line `index` of the primary pattern is yang
/// and still, or yin and moving.
pub proof fn lemma_moving_lines_turn(lines: Seq<Line>, index: int)
    requires
        lines.len() == 6,
        0 <= index < 6,
    ensures
        (yang_bits(lines, 6) / bit(index)) % 2 == yang_digit(lines[index]),
        (turned_bits(lines, 6) / bit(index)) % 2 == turned_digit(lines[index]),
{
    reveal_with_fuel(yang_bits, 7);
    reveal_with_fuel(turned_bits, 7);
    let y = Seq::new(6, |j: int| yang_digit(lines[j]));
    let t = Seq::new(6, |j: int| turned_digit(lines[j]));
    lemma_digit(y, index);
    lemma_digit(t, index);
}

} // verus!
