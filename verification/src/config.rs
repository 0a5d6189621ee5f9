//! Processing parameters.

use vstd::prelude::*;
use vstd::string::*;

verus! {

/// The resolutions at which images are shown and processed.
#[derive(Debug, Clone, Copy)]
pub struct DimensionConfig {
    pub display_width: u32,
    pub display_height: u32,
    pub processing_width: u32,
    pub processing_height: u32,
}

impl Default for DimensionConfig {
    /// Shown at 1640 by 2480, processed at 666 by 820.
    fn default() -> (config: DimensionConfig)
        ensures
            config.display_width == 1640,
            config.display_height == 2480,
            config.processing_width == 666,
            config.processing_height == 820,
    {
        DimensionConfig {
            display_width: 1640,
            display_height: 2480,
            processing_width: 666,
            processing_height: 820,
        }
    }
}

/// Tunables of bubble thresholding.
#[derive(Debug)]
pub struct ThresholdParams {
    /// The gamma of the correction applied after normalisation, in
    /// thousandths.
    pub gamma_low: u32,
    pub min_gap: u32,
    pub min_jump: u32,
    pub confident_surplus: u32,
    pub jump_delta: u32,
    pub page_type: String,
}

impl Default for ThresholdParams {
    /// A gamma of 0.7 on a white page.
    fn default() -> (params: ThresholdParams)
        ensures
            params.gamma_low == 700,
            params.min_gap == 30,
            params.min_jump == 25,
            params.confident_surplus == 5,
            params.jump_delta == 30,
            params.page_type@ == "white"@,
    {
        ThresholdParams {
            gamma_low: 700,
            min_gap: 30,
            min_jump: 25,
            confident_surplus: 5,
            jump_delta: 30,
            page_type: String::from_str("white"),
        }
    }
}

/// Parameters of automatic alignment.
#[derive(Debug, Clone, Copy)]
pub struct AlignmentParams {
    pub auto_align: bool,
    pub match_col: u32,
    pub max_steps: u32,
    pub stride: u32,
    pub thickness: u32,
}

impl Default for AlignmentParams {
    /// No automatic alignment.
    fn default() -> (params: AlignmentParams)
        ensures
            !params.auto_align,
            params.match_col == 5,
            params.max_steps == 20,
            params.stride == 1,
            params.thickness == 3,
    {
        AlignmentParams { auto_align: false, match_col: 5, max_steps: 20, stride: 1, thickness: 3 }
    }
}

/// What is shown and saved.
#[derive(Debug, Clone, Copy)]
pub struct OutputConfig {
    pub show_image_level: u32,
    pub save_image_level: u32,
    pub save_detections: bool,
    pub filter_out_multimarked_files: bool,
}

impl Default for OutputConfig {
    /// Detections are saved, images are not.
    fn default() -> (config: OutputConfig)
        ensures
            config.show_image_level == 0,
            config.save_image_level == 0,
            config.save_detections,
            !config.filter_out_multimarked_files,
    {
        OutputConfig {
            show_image_level: 0,
            save_image_level: 0,
            save_detections: true,
            filter_out_multimarked_files: false,
        }
    }
}

/// The size of a bubble, in pixels.
#[derive(Debug, Clone, Copy)]
pub struct BubbleDimensions {
    pub width: u32,
    pub height: u32,
}

impl Default for BubbleDimensions {
    /// Bubbles of 32 by 32 pixels.
    fn default() -> (dimensions: BubbleDimensions)
        ensures
            dimensions.width == 32,
            dimensions.height == 32,
    {
        BubbleDimensions { width: 32, height: 32 }
    }
}

/// All processing parameters.
#[derive(Debug)]
pub struct ProcessingConfig {
    pub dimensions: DimensionConfig,
    pub threshold_params: ThresholdParams,
    pub alignment_params: AlignmentParams,
    pub outputs: OutputConfig,
}

impl ProcessingConfig {
    /// The default of every group of parameters.
    pub open spec fn is_default(&self) -> bool {
        &&& self.dimensions == (DimensionConfig {
            display_width: 1640,
            display_height: 2480,
            processing_width: 666,
            processing_height: 820,
        })
        &&& self.threshold_params.gamma_low == 700
        &&& self.threshold_params.min_gap == 30
        &&& self.threshold_params.min_jump == 25
        &&& self.threshold_params.confident_surplus == 5
        &&& self.threshold_params.jump_delta == 30
        &&& self.threshold_params.page_type@ == "white"@
        &&& self.alignment_params == (AlignmentParams {
            auto_align: false,
            match_col: 5,
            max_steps: 20,
            stride: 1,
            thickness: 3,
        })
        &&& self.outputs == (OutputConfig {
            show_image_level: 0,
            save_image_level: 0,
            save_detections: true,
            filter_out_multimarked_files: false,
        })
    }

    /// The same parameters in two values.
    pub open spec fn same_as(&self, other: &ProcessingConfig) -> bool {
        &&& self.dimensions == other.dimensions
        &&& self.threshold_params.gamma_low == other.threshold_params.gamma_low
        &&& self.threshold_params.min_gap == other.threshold_params.min_gap
        &&& self.threshold_params.min_jump == other.threshold_params.min_jump
        &&& self.threshold_params.confident_surplus == other.threshold_params.confident_surplus
        &&& self.threshold_params.jump_delta == other.threshold_params.jump_delta
        &&& self.threshold_params.page_type@ == other.threshold_params.page_type@
        &&& self.alignment_params == other.alignment_params
        &&& self.outputs == other.outputs
    }

    /// A copy of the parameters.
    pub fn duplicate(&self) -> (copy: ProcessingConfig)
        ensures
            copy.same_as(self),
    {
        ProcessingConfig {
            dimensions: self.dimensions,
            threshold_params: ThresholdParams {
                gamma_low: self.threshold_params.gamma_low,
                min_gap: self.threshold_params.min_gap,
                min_jump: self.threshold_params.min_jump,
                confident_surplus: self.threshold_params.confident_surplus,
                jump_delta: self.threshold_params.jump_delta,
                page_type: self.threshold_params.page_type.clone(),
            },
            alignment_params: self.alignment_params,
            outputs: self.outputs,
        }
    }
}

impl Default for ProcessingConfig {
    /// The default of every group of parameters.
    fn default() -> (config: ProcessingConfig)
        ensures
            config.is_default(),
    {
        ProcessingConfig {
            dimensions: DimensionConfig::default(),
            threshold_params: ThresholdParams::default(),
            alignment_params: AlignmentParams::default(),
            outputs: OutputConfig::default(),
        }
    }
}

} // verus!
