//! The geometric and scoring description of a page layout.

use crate::config::BubbleDimensions;
use crate::labels::LabelMap;
use vstd::prelude::*;
use vstd::string::*;

verus! {

/// Scores of one marking scheme, in millionths of a point.
#[derive(Debug, Clone, Copy)]
pub struct ScoreVariant {
    pub correct: i32,
    pub incorrect: i32,
    pub unmarked: i32,
}

/// The kinds of field.
#[derive(Debug, Clone, Copy, PartialEq, Eq, Structural)]
pub enum FieldType {
    /// Several bubbles of the field may be marked.
    MultipleChoice,
    SingleChoice,
    Integer,
    RollNumber,
}

/// One bubble of a field: where it lies from the field's origin, and the
/// value it stands for.
#[derive(Debug)]
pub struct BubbleLocation {
    pub position: (u32, u32),
    pub value: String,
}

/// The mathematical content of a `BubbleLocation`.
pub ghost struct BubbleLocationView {
    pub position: (u32, u32),
    pub value: Seq<char>,
}

impl View for BubbleLocation {
    type V = BubbleLocationView;

    open spec fn view(&self) -> BubbleLocationView {
        BubbleLocationView { position: self.position, value: self.value@ }
    }
}

/// The views of a list of bubbles.
pub open spec fn bubble_views(bubbles: Seq<BubbleLocation>) -> Seq<BubbleLocationView> {
    Seq::new(bubbles.len(), |i: int| bubbles[i]@)
}

/// A named, positioned group of bubbles: one question.
#[derive(Debug)]
pub struct FieldBlock {
    pub field_label: String,
    pub field_type: FieldType,
    pub origin: (u32, u32),
    pub bubbles: Vec<BubbleLocation>,
    pub labels: Vec<String>,
}

/// A morphological clean-up step.
#[derive(Debug)]
pub struct MorphologyConfig {
    /// "open", "close", "erode" or "dilate".
    pub operation: String,
    /// "rect", "ellipse" or "cross".
    pub kernel_shape: String,
    pub kernel_size: (u32, u32),
}

/// A thresholding step.
#[derive(Debug)]
pub struct ThresholdConfig {
    /// "binary" or "adaptive".
    pub threshold_type: String,
    pub threshold_value: u8,
    pub max_value: u8,
}

/// The settings of one pre-processing step.
#[derive(Debug)]
pub struct PreProcessorOptions {
    pub morphology: Option<MorphologyConfig>,
    pub median_blur: Option<u32>,
    /// The standard deviation of the blur, in thousandths of a pixel.
    pub gaussian_blur: Option<u32>,
    pub threshold: Option<ThresholdConfig>,
}

/// One pre-processing step.
#[derive(Debug)]
pub struct PreProcessor {
    pub name: String,
    pub options: PreProcessorOptions,
}

/// Switches and per-field scoring of a template.
pub struct TemplateOptions {
    pub enable_multi_column_labels: bool,
    pub enable_thinning_preprocessing: bool,
    pub score_variants: LabelMap<ScoreVariant>,
}

/// A page layout.
pub struct OmrTemplate {
    pub bubble_dimensions: BubbleDimensions,
    pub page_dimensions: (u32, u32),
    pub field_blocks: Vec<FieldBlock>,
    pub pre_processors: Vec<PreProcessor>,
    pub custom_labels: LabelMap<String>,
    pub output_columns: Vec<String>,
    pub options: TemplateOptions,
    pub empty_value: String,
}

/// Why a template is refused.
#[derive(Debug, Clone, Copy, PartialEq, Eq, Structural)]
pub enum TemplateError {
    /// A bubble dimension is zero.
    BubbleDimensions,
    /// A page dimension is zero.
    PageDimensions,
    /// A field block has an empty label.
    EmptyFieldLabel,
    /// A field block has no bubble.
    NoBubbles,
}

impl TemplateError {
    /// The sentence that tells what is wrong.
    pub open spec fn spec_message(&self) -> Seq<char> {
        match self {
            TemplateError::BubbleDimensions => "Bubble dimensions must be positive"@,
            TemplateError::PageDimensions => "Page dimensions must be positive"@,
            TemplateError::EmptyFieldLabel => "Field label cannot be empty"@,
            TemplateError::NoBubbles => "Field block must have at least one bubble"@,
        }
    }

    /// The sentence that tells what is wrong.
    pub fn message(&self) -> (text: String)
        ensures
            text@ == self.spec_message(),
    {
        match self {
            TemplateError::BubbleDimensions => String::from_str(
                "Bubble dimensions must be positive",
            ),
            TemplateError::PageDimensions => String::from_str("Page dimensions must be positive"),
            TemplateError::EmptyFieldLabel => String::from_str("Field label cannot be empty"),
            TemplateError::NoBubbles => String::from_str(
                "Field block must have at least one bubble",
            ),
        }
    }
}

/// What is wrong with a field block, if anything: an empty label counts
/// before a missing bubble.
pub open spec fn block_error(block: &FieldBlock) -> Option<TemplateError> {
    if block.field_label@.len() == 0 {
        Some(TemplateError::EmptyFieldLabel)
    } else if block.bubbles@.len() == 0 {
        Some(TemplateError::NoBubbles)
    } else {
        None
    }
}

/// What is wrong with the first faulty block from position `from` on.
pub open spec fn first_block_error(blocks: Seq<FieldBlock>, from: int) -> Option<TemplateError>
    decreases blocks.len() - from,
{
    if from < 0 || from >= blocks.len() {
        None
    } else if block_error(&blocks[from]) is Some {
        block_error(&blocks[from])
    } else {
        first_block_error(blocks, from + 1)
    }
}

/// The position of the first block from `from` on that carries `label`, or
/// the number of blocks when none does.
pub open spec fn block_position(blocks: Seq<FieldBlock>, label: Seq<char>, from: int) -> int
    decreases blocks.len() - from,
{
    if from < 0 || from >= blocks.len() {
        blocks.len() as int
    } else if blocks[from].field_label@ == label {
        from
    } else {
        block_position(blocks, label, from + 1)
    }
}

/// The number of bubbles in the first `n` blocks.
pub open spec fn bubble_total(blocks: Seq<FieldBlock>, n: int) -> int
    decreases n,
{
    if n <= 0 {
        0
    } else {
        bubble_total(blocks, n - 1) + blocks[n - 1].bubbles@.len()
    }
}

impl OmrTemplate {
    /// The maps of the template are proper maps.
    pub open spec fn wf(&self) -> bool {
        self.custom_labels.wf() && self.options.score_variants.wf()
    }

    /// What is wrong with the template, if anything: the bubble dimensions
    /// count first, then the page dimensions, then the blocks in order.
    pub open spec fn defect(&self) -> Option<TemplateError> {
        if self.bubble_dimensions.width == 0 || self.bubble_dimensions.height == 0 {
            Some(TemplateError::BubbleDimensions)
        } else if self.page_dimensions.0 == 0 || self.page_dimensions.1 == 0 {
            Some(TemplateError::PageDimensions)
        } else {
            first_block_error(self.field_blocks@, 0)
        }
    }

    /// The block that carries `label`, if any; the first when several do.
    pub open spec fn block_for(&self, label: Seq<char>) -> Option<FieldBlock> {
        let i = block_position(self.field_blocks@, label, 0);
        if i < self.field_blocks@.len() {
            Some(self.field_blocks@[i])
        } else {
            None
        }
    }

    /// Whether the field `label` may carry several marks: it exists and is
    /// of the multiple-choice kind.
    pub open spec fn spec_is_multi_choice_field(&self, label: Seq<char>) -> bool {
        match self.block_for(label) {
            Some(block) => block.field_type == FieldType::MultipleChoice,
            None => false,
        }
    }

    /// Checks the template: positive bubble and page dimensions, and in
    /// every field block a label and at least one bubble.
    pub fn validate(&self) -> (r: Result<(), TemplateError>)
        ensures
            match r {
                Ok(_) => self.defect() is None,
                Err(e) => self.defect() == Some(e),
            },
    {
        if self.bubble_dimensions.width == 0 || self.bubble_dimensions.height == 0 {
            return Err(TemplateError::BubbleDimensions);
        }
        if self.page_dimensions.0 == 0 || self.page_dimensions.1 == 0 {
            return Err(TemplateError::PageDimensions);
        }
        let mut i: usize = 0;
        while i < self.field_blocks.len()
            invariant
                i <= self.field_blocks@.len(),
                self.bubble_dimensions.width != 0,
                self.bubble_dimensions.height != 0,
                self.page_dimensions.0 != 0,
                self.page_dimensions.1 != 0,
                first_block_error(self.field_blocks@, 0) == first_block_error(
                    self.field_blocks@,
                    i as int,
                ),
            decreases self.field_blocks.len() - i,
        {
            let block: &FieldBlock = &self.field_blocks[i];
            if block.field_label.as_str().is_empty() {
                return Err(TemplateError::EmptyFieldLabel);
            }
            if block.bubbles.len() == 0 {
                return Err(TemplateError::NoBubbles);
            }
            i += 1;
        }
        Ok(())
    }

    /// Accepts a parsed template if it is valid.
    pub fn load(parsed: OmrTemplate) -> (r: Result<OmrTemplate, TemplateError>)
        ensures
            match r {
                Ok(template) => parsed.defect() is None && template == parsed,
                Err(e) => parsed.defect() == Some(e),
            },
    {
        match parsed.validate() {
            Ok(_) => Ok(parsed),
            Err(e) => Err(e),
        }
    }

    /// The field block that carries `label`; the first when several do.
    pub fn get_field_block(&self, label: &str) -> (r: Option<&FieldBlock>)
        ensures
            match r {
                Some(block) => self.block_for(label@) == Some(*block),
                None => self.block_for(label@) is None,
            },
    {
        let wanted: String = String::from_str(label);
        let mut i: usize = 0;
        while i < self.field_blocks.len()
            invariant
                i <= self.field_blocks@.len(),
                wanted@ == label@,
                block_position(self.field_blocks@, label@, 0) == block_position(
                    self.field_blocks@,
                    label@,
                    i as int,
                ),
            decreases self.field_blocks.len() - i,
        {
            if self.field_blocks[i].field_label == wanted {
                return Some(&self.field_blocks[i]);
            }
            i += 1;
        }
        None
    }

    /// The label and the bubbles of every field block, in order.
    pub fn get_all_bubble_locations(&self) -> (all: Vec<(String, Vec<BubbleLocation>)>)
        ensures
            all@.len() == self.field_blocks@.len(),
            forall|i: int|
                0 <= i < all@.len() ==> (#[trigger] all@[i]).0@ == self.field_blocks@[i].field_label@
                    && bubble_views(all@[i].1@) == bubble_views(self.field_blocks@[i].bubbles@),
    {
        let mut all: Vec<(String, Vec<BubbleLocation>)> = Vec::new();
        let mut i: usize = 0;
        while i < self.field_blocks.len()
            invariant
                i <= self.field_blocks@.len(),
                all@.len() == i,
                forall|k: int|
                    0 <= k < i ==> (#[trigger] all@[k]).0@ == self.field_blocks@[k].field_label@
                        && bubble_views(all@[k].1@) == bubble_views(
                        self.field_blocks@[k].bubbles@,
                    ),
            decreases self.field_blocks.len() - i,
        {
            let block: &FieldBlock = &self.field_blocks[i];
            let mut bubbles: Vec<BubbleLocation> = Vec::new();
            let mut k: usize = 0;
            while k < block.bubbles.len()
                invariant
                    k <= block.bubbles@.len(),
                    bubbles@.len() == k,
                    forall|j: int| 0 <= j < k ==> (#[trigger] bubbles@[j])@ == block.bubbles@[j]@,
                decreases block.bubbles.len() - k,
            {
                bubbles.push(
                    BubbleLocation {
                        position: block.bubbles[k].position,
                        value: block.bubbles[k].value.clone(),
                    },
                );
                k += 1;
            }
            assert(bubble_views(bubbles@) =~= bubble_views(block.bubbles@));
            all.push((block.field_label.clone(), bubbles));
            i += 1;
        }
        all
    }

    /// The pre-processing steps, in order.
    pub fn get_preprocessor_chain(&self) -> (chain: &Vec<PreProcessor>)
        ensures
            chain == &self.pre_processors,
    {
        &self.pre_processors
    }

    /// Whether the field `field_label` may carry several marks.
    pub fn is_multi_choice_field(&self, field_label: &str) -> (r: bool)
        ensures
            r == self.spec_is_multi_choice_field(field_label@),
    {
        match self.get_field_block(field_label) {
            Some(block) => block.field_type == FieldType::MultipleChoice,
            None => false,
        }
    }

    /// The number of bubbles of the template, which must fit `usize`.
    pub fn get_expected_bubble_count(&self) -> (count: usize)
        requires
            bubble_total(self.field_blocks@, self.field_blocks@.len() as int) <= usize::MAX,
        ensures
            count == bubble_total(self.field_blocks@, self.field_blocks@.len() as int),
    {
        let mut count: usize = 0;
        let mut i: usize = 0;
        while i < self.field_blocks.len()
            invariant
                i <= self.field_blocks@.len(),
                count == bubble_total(self.field_blocks@, i as int),
                bubble_total(self.field_blocks@, self.field_blocks@.len() as int) <= usize::MAX,
            decreases self.field_blocks.len() - i,
        {
            proof {
                lemma_bubble_total_grows(
                    self.field_blocks@,
                    i as int + 1,
                    self.field_blocks@.len() as int,
                );
            }
            count = count + self.field_blocks[i].bubbles.len();
            i += 1;
        }
        count
    }

    /// A template with one multiple-choice field `Q1` at `(100, 200)`,
    /// whose bubbles A, B, C and D lie 50 pixels apart on one row.
    pub fn create_basic_template() -> (template: OmrTemplate)
        ensures
            template.wf(),
            template.defect() is None,
            template.bubble_dimensions.width == 32,
            template.bubble_dimensions.height == 32,
            template.page_dimensions == (666u32, 820u32),
            template.field_blocks@.len() == 1,
            template.field_blocks@[0].field_label@ == "Q1"@,
            template.field_blocks@[0].field_type == FieldType::MultipleChoice,
            template.field_blocks@[0].origin == (100u32, 200u32),
            bubble_views(template.field_blocks@[0].bubbles@) == seq![
                BubbleLocationView { position: (0u32, 0u32), value: "A"@ },
                BubbleLocationView { position: (50u32, 0u32), value: "B"@ },
                BubbleLocationView { position: (100u32, 0u32), value: "C"@ },
                BubbleLocationView { position: (150u32, 0u32), value: "D"@ },
            ],
            template.field_blocks@[0].labels.deep_view() == seq!["A"@, "B"@, "C"@, "D"@],
            template.output_columns.deep_view() == seq!["Q1"@],
    {
        let mut template: OmrTemplate = OmrTemplate::default();
        let mut bubbles: Vec<BubbleLocation> = Vec::new();
        bubbles.push(BubbleLocation { position: (0, 0), value: String::from_str("A") });
        bubbles.push(BubbleLocation { position: (50, 0), value: String::from_str("B") });
        bubbles.push(BubbleLocation { position: (100, 0), value: String::from_str("C") });
        bubbles.push(BubbleLocation { position: (150, 0), value: String::from_str("D") });
        let mut labels: Vec<String> = Vec::new();
        labels.push(String::from_str("A"));
        labels.push(String::from_str("B"));
        labels.push(String::from_str("C"));
        labels.push(String::from_str("D"));
        let block = FieldBlock {
            field_label: String::from_str("Q1"),
            field_type: FieldType::MultipleChoice,
            origin: (100, 200),
            bubbles,
            labels,
        };
        proof {
            reveal_strlit("Q1");
            assert(bubble_views(block.bubbles@) =~= seq![
                BubbleLocationView { position: (0u32, 0u32), value: "A"@ },
                BubbleLocationView { position: (50u32, 0u32), value: "B"@ },
                BubbleLocationView { position: (100u32, 0u32), value: "C"@ },
                BubbleLocationView { position: (150u32, 0u32), value: "D"@ },
            ]);
            assert(block.labels.deep_view() =~= seq!["A"@, "B"@, "C"@, "D"@]);
        }
        template.field_blocks.push(block);
        let mut columns: Vec<String> = Vec::new();
        columns.push(String::from_str("Q1"));
        assert(columns.deep_view() =~= seq!["Q1"@]);
        template.output_columns = columns;
        proof {
            assert(first_block_error(template.field_blocks@, 1) is None);
        }
        template
    }
}

/// The bubbles of more blocks are no fewer.
pub proof fn lemma_bubble_total_grows(blocks: Seq<FieldBlock>, m: int, n: int)
    requires
        0 <= m <= n,
    ensures
        0 <= bubble_total(blocks, m) <= bubble_total(blocks, n),
    decreases n,
{
    if m < n {
        lemma_bubble_total_grows(blocks, m, n - 1);
    } else if m > 0 {
        lemma_bubble_total_grows(blocks, m - 1, m - 1);
    }
}

impl Default for OmrTemplate {
    /// A page of 666 by 820 pixels with bubbles of 32 by 32 and no field.
    fn default() -> (template: OmrTemplate)
        ensures
            template.wf(),
            template.bubble_dimensions.width == 32,
            template.bubble_dimensions.height == 32,
            template.page_dimensions == (666u32, 820u32),
            template.field_blocks@.len() == 0,
            template.pre_processors@.len() == 0,
            template.custom_labels@ == Map::<Seq<char>, String>::empty(),
            template.output_columns@.len() == 0,
            !template.options.enable_multi_column_labels,
            !template.options.enable_thinning_preprocessing,
            template.options.score_variants@ == Map::<Seq<char>, ScoreVariant>::empty(),
            template.empty_value@ == Seq::<char>::empty(),
    {
        OmrTemplate {
            bubble_dimensions: BubbleDimensions::default(),
            page_dimensions: (666, 820),
            field_blocks: Vec::new(),
            pre_processors: Vec::new(),
            custom_labels: LabelMap::new(),
            output_columns: Vec::new(),
            options: TemplateOptions {
                enable_multi_column_labels: false,
                enable_thinning_preprocessing: false,
                score_variants: LabelMap::new(),
            },
            empty_value: String::new(),
        }
    }
}

} // verus!
