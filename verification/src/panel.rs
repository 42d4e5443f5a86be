//! Display-panel rules: which bit messages and videos to show.
//!
//! The operator panel maps single bits of the incoming words to
//! configured messages and gates a video loop on one control bit.
//! Which records are stored is the database's business; what the
//! current words say about them is decided here.

use vstd::multiset::Multiset;
use vstd::prelude::*;

verus! {

/// One configured text entry of the panel.
#[derive(Debug, Clone)]
pub struct TextConfig {
    pub id: i64,
    pub key: String,
    pub text: String,
    pub enabled: bool,
}

/// One configured process phase.
#[derive(Debug, Clone)]
pub struct PhaseConfig {
    pub id: i64,
    pub phase_number: i32,
    pub title: String,
    pub description: String,
    pub color: String,
    pub enabled: bool,
}

/// One free-form display setting.
#[derive(Debug, Clone)]
pub struct DisplayConfig {
    pub id: i64,
    pub key: String,
    pub value: String,
    pub data_type: String,
}

/// One bit of one word mapped to a panel message.
#[derive(Debug, Clone)]
pub struct BitConfig {
    pub id: i64,
    pub word_index: i32,
    pub bit_index: i32,
    pub name: String,
    pub message: String,
    pub message_off: String,
    pub enabled: bool,
    pub priority: i32,
    pub color: String,
    pub font_size: i32,
    pub position: String,
    pub font_family: String,
    pub font_weight: String,
    pub text_shadow: bool,
    pub letter_spacing: i32,
    pub use_template: bool,
    pub message_template: String,
}

/// One line of the system log.
#[derive(Debug, Clone)]
pub struct SystemLog {
    pub id: i64,
    pub timestamp: String,
    pub level: String,
    pub category: String,
    pub message: String,
    pub details: String,
}

/// One configured video of the display loop.
#[derive(Debug, Clone)]
pub struct VideoConfig {
    pub id: i64,
    pub name: String,
    pub file_path: String,
    pub duration: i32,
    pub enabled: bool,
    pub priority: i32,
    pub description: String,
    pub display_order: i32,
}

/// Bit `bit` of the 16-bit word at `word` in the frame, when both
/// indices are in range; `false` otherwise.
pub open spec fn word_bit(words: Seq<u16>, word: int, bit: int) -> bool {
    if 0 <= word < words.len() && 0 <= bit < 16 {
        crate::cache::bit_of(words[word] as nat, bit as nat) == 1
    } else {
        false
    }
}

/// A bit configuration that applies to this frame: enabled, and both
/// indices in range.
pub open spec fn bit_applies(c: BitConfig, words: Seq<u16>) -> bool {
    c.enabled && 0 <= c.word_index < words.len() && 0 <= c.bit_index < 16
}

/// Bit `bit` of one word.
fn word_bit_exec(w: u16, bit: i32) -> (r: bool)
    requires
        0 <= bit < 16,
    ensures
        r == (crate::cache::bit_of(w as nat, bit as nat) == 1),
{
    proof {
        vstd::arithmetic::power2::lemma2_to64();
        if (bit as nat) + 1 < 16 {
            vstd::arithmetic::power2::lemma_pow2_strictly_increases(bit as nat, 16);
        } else {
            vstd::arithmetic::power2::lemma_pow2_strictly_increases(15, 16);
        }
    }
    let mut p: u16 = 1;
    let mut j: i32 = 0;
    while j < bit
        invariant
            0 <= j <= bit < 16,
            p as nat == vstd::arithmetic::power2::pow2(j as nat),
        decreases bit - j,
    {
        proof {
            vstd::arithmetic::power2::lemma2_to64();
            vstd::arithmetic::power2::lemma_pow2_unfold(j as nat + 1);
            if (j as nat) + 1 < 16 {
                vstd::arithmetic::power2::lemma_pow2_strictly_increases(j as nat + 1, 16);
            }
        }
        p = p * 2;
        j = j + 1;
    }
    proof {
        vstd::arithmetic::power2::lemma_pow2_pos(bit as nat);
    }
    (w / p) % 2 == 1
}

/// The evaluated rows of a frame: each enabled, in-range bit
/// configuration paired with its current bit value, in storage order.
pub open spec fn bits_rows(words: Seq<u16>, configs: Seq<BitConfig>) -> Seq<(BitConfig, bool)>
    decreases configs.len(),
{
    if configs.len() == 0 {
        Seq::<(BitConfig, bool)>::empty()
    } else {
        let head = if bit_applies(configs.first(), words) {
            seq![
                (
                    configs.first(),
                    word_bit(
                        words,
                        configs.first().word_index as int,
                        configs.first().bit_index as int,
                    ),
                ),
            ]
        } else {
            Seq::<(BitConfig, bool)>::empty()
        };
        head + bits_rows(words, configs.drop_first())
    }
}

impl BitConfig {
    /// A field-for-field copy.
    pub fn clone_bit(&self) -> (r: BitConfig)
        ensures
            r == *self,
    {
        BitConfig {
            id: self.id,
            word_index: self.word_index,
            bit_index: self.bit_index,
            name: self.name.clone(),
            message: self.message.clone(),
            message_off: self.message_off.clone(),
            enabled: self.enabled,
            priority: self.priority,
            color: self.color.clone(),
            font_size: self.font_size,
            position: self.position.clone(),
            font_family: self.font_family.clone(),
            font_weight: self.font_weight.clone(),
            text_shadow: self.text_shadow,
            letter_spacing: self.letter_spacing,
            use_template: self.use_template,
            message_template: self.message_template.clone(),
        }
    }
}

/// Evaluates the enabled, in-range bit configurations against the
/// frame, in storage order: exactly the rows `bits_rows` describes.
/// The panel sorts the result by priority itself.
pub fn process_plc_bits(word_data: &[u16], configs: &[BitConfig]) -> (r: Vec<(BitConfig, bool)>)
    ensures
        r@ == bits_rows(word_data@, configs@),
{
    let mut r: Vec<(BitConfig, bool)> = Vec::new();
    let mut i: usize = 0;
    proof {
        assert(configs@.skip(0) =~= configs@);
        assert(r@ =~= Seq::<(BitConfig, bool)>::empty());
    }
    while i < configs.len()
        invariant
            0 <= i <= configs@.len(),
            bits_rows(word_data@, configs@) =~= r@ + bits_rows(
                word_data@,
                configs@.skip(i as int),
            ),
        decreases configs@.len() - i,
    {
        proof {
            assert(configs@.skip(i as int).first() == configs@[i as int]);
            assert(configs@.skip(i as int).drop_first() =~= configs@.skip(i as int + 1));
        }
        let c = &configs[i];
        let in_range = c.enabled && c.word_index >= 0 && (c.word_index as usize)
            < word_data.len() && c.bit_index >= 0 && c.bit_index < 16;
        if in_range {
            let w = word_data[c.word_index as usize];
            let b = word_bit_exec(w, c.bit_index);
            let ghost before = r@;
            r.push((c.clone_bit(), b));
            proof {
                assert(r@ =~= before.push((configs@[i as int], b)));
                assert(r@ + bits_rows(word_data@, configs@.skip(i as int + 1)) =~= (before + (
                seq![(configs@[i as int], b)] + bits_rows(
                    word_data@,
                    configs@.skip(i as int + 1),
                ))));
            }
        } else {
            proof {
                assert(r@ + bits_rows(word_data@, configs@.skip(i as int + 1)) =~= (r@ + (Seq::<
                    (BitConfig, bool),
                >::empty() + bits_rows(word_data@, configs@.skip(i as int + 1)))));
            }
        }
        i = i + 1;
    }
    proof {
        assert(bits_rows(word_data@, configs@.skip(configs@.len() as int)).len() == 0);
        assert(r@ =~= bits_rows(word_data@, configs@));
    }
    r
}

/// Sorts evaluated bit configurations by priority, highest first:
/// the order the panel displays them in. The result holds the same
/// pairs.
pub fn sort_bits_by_priority(items: Vec<(BitConfig, bool)>) -> (r: Vec<(BitConfig, bool)>)
    ensures
        r@.len() == items@.len(),
        r@.to_multiset() == items@.to_multiset(),
        forall|i: int, j: int|
            0 <= i < j < r@.len() ==> (#[trigger] r@[i]).0.priority >= (#[trigger] r@[j]).0.priority,
{
    broadcast use vstd::seq_lib::group_to_multiset_ensures;

    let mut rest = items;
    let mut r: Vec<(BitConfig, bool)> = Vec::new();
    proof {
        assert(r@.to_multiset().add(rest@.to_multiset()) =~= rest@.to_multiset());
        assert(r@.to_multiset() =~= Multiset::<(BitConfig, bool)>::empty());
    }
    while rest.len() > 0
        invariant
            r@.to_multiset().add(rest@.to_multiset()) == items@.to_multiset(),
            r@.len() + rest@.len() == items@.len(),
            forall|i: int, j: int|
                0 <= i < j < r@.len() ==> (#[trigger] r@[i]).0.priority >= (
                #[trigger] r@[j]).0.priority,
            forall|i: int, j: int|
                0 <= i < r@.len() && 0 <= j < rest@.len() ==> (#[trigger] r@[i]).0.priority >= (
                #[trigger] rest@[j]).0.priority,
        decreases rest@.len(),
    {
        let mut best: usize = 0;
        let mut k: usize = 1;
        while k < rest.len()
            invariant
                0 <= best < k <= rest@.len(),
                forall|j: int|
                    0 <= j < k ==> (#[trigger] rest@[j]).0.priority
                        <= rest@[best as int].0.priority,
            decreases rest@.len() - k,
        {
            if rest[k].0.priority > rest[best].0.priority {
                best = k;
            }
            k = k + 1;
        }
        let ghost before = rest@;
        let picked = rest.remove(best);
        let ghost rbefore = r@;
        r.push(picked);
        proof {
            before.to_multiset_ensures();
            rbefore.to_multiset_ensures();
            assert(rest@ =~= before.remove(best as int));
            assert(before[best as int] == picked);
            assert(before.remove(best as int).to_multiset() =~= before.to_multiset().remove(
                picked,
            ));
            assert(before.contains(picked)) by {
                assert(before[best as int] == picked);
            }
            assert(before.to_multiset().count(picked) > 0);
            assert(before.to_multiset() =~= rest@.to_multiset().insert(picked));
            assert(r@ =~= rbefore.push(picked));
            assert(rbefore.push(picked).to_multiset() =~= rbefore.to_multiset().insert(picked));
            assert(r@.to_multiset() =~= rbefore.to_multiset().insert(picked));
            assert(rbefore.to_multiset().insert(picked).add(rest@.to_multiset())
                =~= rbefore.to_multiset().add(rest@.to_multiset().insert(picked)));
            assert forall|i: int, j: int|
                0 <= i < r@.len() && 0 <= j < rest@.len() implies (#[trigger] r@[i]).0.priority
                >= (#[trigger] rest@[j]).0.priority by {
                if i < rbefore.len() {
                    if j < best {
                        assert(rest@[j] == before[j]);
                    } else {
                        assert(rest@[j] == before[j + 1]);
                    }
                } else {
                    assert(r@[i] == picked);
                    if j < best {
                        assert(rest@[j] == before[j]);
                    } else {
                        assert(rest@[j] == before[j + 1]);
                    }
                }
            }
        }
    }
    proof {
        assert(rest@.to_multiset() =~= Multiset::<(BitConfig, bool)>::empty());
        assert(r@.to_multiset() =~= items@.to_multiset());
    }
    r
}

/// Whether the video loop should run: the configured control bit of
/// the frame, `false` when the word index is out of range.
pub fn should_show_videos(plc_data: &[u16], word_index: i32, bit_index: i32) -> (r: bool)
    ensures
        r == word_bit(plc_data@, word_index as int, bit_index as int),
{
    if word_index < 0 || word_index as usize >= plc_data.len() || bit_index < 0 || bit_index
        >= 16 {
        return false;
    }
    let w = plc_data[word_index as usize];
    word_bit_exec(w, bit_index)
}

/// The enabled videos, in storage order: what the loop plays when the
/// control bit is up.
pub fn enabled_videos(videos: &Vec<VideoConfig>) -> (r: Vec<VideoConfig>)
    ensures
        r@ == videos@.filter(|v: VideoConfig| v.enabled),
{
    let mut r: Vec<VideoConfig> = Vec::new();
    let mut i: usize = 0;
    proof {
        assert(videos@.take(0).filter(|v: VideoConfig| v.enabled) =~= Seq::<
            VideoConfig,
        >::empty());
    }
    while i < videos.len()
        invariant
            0 <= i <= videos@.len(),
            r@ =~= videos@.take(i as int).filter(|v: VideoConfig| v.enabled),
        decreases videos@.len() - i,
    {
        proof {
            assert(videos@.take(i as int + 1).drop_last() =~= videos@.take(i as int));
            assert(videos@.take(i as int + 1).last() == videos@[i as int]);
            reveal(Seq::filter);
        }
        if videos[i].enabled {
            r.push(videos[i].clone_video());
        }
        proof {
            reveal(Seq::filter);
        }
        i = i + 1;
    }
    proof {
        assert(videos@.take(videos@.len() as int) =~= videos@);
    }
    r
}

impl VideoConfig {
    /// A field-for-field copy.
    pub fn clone_video(&self) -> (r: VideoConfig)
        ensures
            r == *self,
    {
        VideoConfig {
            id: self.id,
            name: self.name.clone(),
            file_path: self.file_path.clone(),
            duration: self.duration,
            enabled: self.enabled,
            priority: self.priority,
            description: self.description.clone(),
            display_order: self.display_order,
        }
    }
}

} // verus!
