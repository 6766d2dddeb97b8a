//! Tool descriptors: the name, description, toolbox, parameter table and
//! example usage under which each analysis is registered. The parameter
//! table is carried as its JSON rendering.

use vstd::prelude::*;

verus! {

/// Flow accumulation by the D8 single-flow-direction model.
pub struct D8FlowAccumulation {
    pub name: String,
    pub description: String,
    pub toolbox: String,
    pub parameters: String,
    pub example_usage: String,
}

impl D8FlowAccumulation {
    pub fn new() -> (t: D8FlowAccumulation)
        ensures
            t.name@ == "D8FlowAccumulation"@,
            t.description@ == "Calculates a D8 flow accumulation raster from an input DEM."@,
            t.toolbox@ == "Hydrological Analysis"@,
            t.parameters@ == "{\"parameters\": [{\"name\": \"Input DEM File\", \"flags\": [\"-i\", \"--dem\"], \"description\": \"Input raster DEM file.\", \"parameter_type\": {\"ExistingFile\": \"Raster\"}, \"default_value\": null, \"optional\": false}, {\"name\": \"Output File\", \"flags\": [\"-o\", \"--output\"], \"description\": \"Output raster file.\", \"parameter_type\": {\"NewFile\": \"Raster\"}, \"default_value\": null, \"optional\": false}, {\"name\": \"Output Type\", \"flags\": [\"--out_type\"], \"description\": \"Output type; one of 'cells' (default), 'catchment area', and 'specific contributing area'.\", \"parameter_type\": {\"OptionList\": [\"cells\", \"catchment area\", \"specific contributing area\"]}, \"default_value\": \"cells\", \"optional\": true}, {\"name\": \"Log-transform the output?\", \"flags\": [\"--log\"], \"description\": \"Optional flag to request the output be log-transformed.\", \"parameter_type\": \"Boolean\", \"default_value\": null, \"optional\": true}, {\"name\": \"Clip the upper tail by 1%?\", \"flags\": [\"--clip\"], \"description\": \"Optional flag to request clipping the display max by 1%.\", \"parameter_type\": \"Boolean\", \"default_value\": null, \"optional\": true}]}"@,
            t.example_usage@ == ">>.*EXE -r=D8FlowAccumulation -v --wd=\"*path*to*data*\" --dem=DEM.tif -o=output.tif --out_type='cells'"@,
    {
        D8FlowAccumulation {
            name: "D8FlowAccumulation".to_owned(),
            description: "Calculates a D8 flow accumulation raster from an input DEM.".to_owned(),
            toolbox: "Hydrological Analysis".to_owned(),
            parameters: "{\"parameters\": [{\"name\": \"Input DEM File\", \"flags\": [\"-i\", \"--dem\"], \"description\": \"Input raster DEM file.\", \"parameter_type\": {\"ExistingFile\": \"Raster\"}, \"default_value\": null, \"optional\": false}, {\"name\": \"Output File\", \"flags\": [\"-o\", \"--output\"], \"description\": \"Output raster file.\", \"parameter_type\": {\"NewFile\": \"Raster\"}, \"default_value\": null, \"optional\": false}, {\"name\": \"Output Type\", \"flags\": [\"--out_type\"], \"description\": \"Output type; one of 'cells' (default), 'catchment area', and 'specific contributing area'.\", \"parameter_type\": {\"OptionList\": [\"cells\", \"catchment area\", \"specific contributing area\"]}, \"default_value\": \"cells\", \"optional\": true}, {\"name\": \"Log-transform the output?\", \"flags\": [\"--log\"], \"description\": \"Optional flag to request the output be log-transformed.\", \"parameter_type\": \"Boolean\", \"default_value\": null, \"optional\": true}, {\"name\": \"Clip the upper tail by 1%?\", \"flags\": [\"--clip\"], \"description\": \"Optional flag to request clipping the display max by 1%.\", \"parameter_type\": \"Boolean\", \"default_value\": null, \"optional\": true}]}".to_owned(),
            example_usage: ">>.*EXE -r=D8FlowAccumulation -v --wd=\"*path*to*data*\" --dem=DEM.tif -o=output.tif --out_type='cells'".to_owned(),
        }
    }

    pub fn get_source_file(&self) -> (r: String)
        ensures
            r@ == "src/accumulate.rs"@,
    {
        "src/accumulate.rs".to_owned()
    }

    pub fn get_tool_name(&self) -> (r: String)
        ensures
            r@ == self.name@,
    {
        self.name.clone()
    }

    pub fn get_tool_description(&self) -> (r: String)
        ensures
            r@ == self.description@,
    {
        self.description.clone()
    }

    pub fn get_tool_parameters(&self) -> (r: String)
        ensures
            r@ == self.parameters@,
    {
        self.parameters.clone()
    }

    pub fn get_example_usage(&self) -> (r: String)
        ensures
            r@ == self.example_usage@,
    {
        self.example_usage.clone()
    }

    pub fn get_toolbox(&self) -> (r: String)
        ensures
            r@ == self.toolbox@,
    {
        self.toolbox.clone()
    }
}

/// Depth of each cell within a closed topographic depression.
pub struct DepthInSink {
    pub name: String,
    pub description: String,
    pub toolbox: String,
    pub parameters: String,
    pub example_usage: String,
}

impl DepthInSink {
    pub fn new() -> (t: DepthInSink)
        ensures
            t.name@ == "DepthInSink"@,
            t.description@ == "Measures the depth of sinks (depressions) in a DEM."@,
            t.toolbox@ == "Hydrological Analysis"@,
            t.parameters@ == "{\"parameters\": [{\"name\": \"Input DEM File\", \"flags\": [\"-i\", \"--dem\"], \"description\": \"Input raster DEM file.\", \"parameter_type\": {\"ExistingFile\": \"Raster\"}, \"default_value\": null, \"optional\": false}, {\"name\": \"Output File\", \"flags\": [\"-o\", \"--output\"], \"description\": \"Output raster file.\", \"parameter_type\": {\"NewFile\": \"Raster\"}, \"default_value\": null, \"optional\": false}, {\"name\": \"Should a background value of zero be used?\", \"flags\": [\"--zero_background\"], \"description\": \"Flag indicating whether the background value of zero should be used.\", \"parameter_type\": \"Boolean\", \"default_value\": null, \"optional\": true}]}"@,
            t.example_usage@ == ">>.*EXE -r=DepthInSink -v --wd=\"*path*to*data*\" --dem=DEM.tif -o=output.tif --zero_background"@,
    {
        DepthInSink {
            name: "DepthInSink".to_owned(),
            description: "Measures the depth of sinks (depressions) in a DEM.".to_owned(),
            toolbox: "Hydrological Analysis".to_owned(),
            parameters: "{\"parameters\": [{\"name\": \"Input DEM File\", \"flags\": [\"-i\", \"--dem\"], \"description\": \"Input raster DEM file.\", \"parameter_type\": {\"ExistingFile\": \"Raster\"}, \"default_value\": null, \"optional\": false}, {\"name\": \"Output File\", \"flags\": [\"-o\", \"--output\"], \"description\": \"Output raster file.\", \"parameter_type\": {\"NewFile\": \"Raster\"}, \"default_value\": null, \"optional\": false}, {\"name\": \"Should a background value of zero be used?\", \"flags\": [\"--zero_background\"], \"description\": \"Flag indicating whether the background value of zero should be used.\", \"parameter_type\": \"Boolean\", \"default_value\": null, \"optional\": true}]}".to_owned(),
            example_usage: ">>.*EXE -r=DepthInSink -v --wd=\"*path*to*data*\" --dem=DEM.tif -o=output.tif --zero_background".to_owned(),
        }
    }

    pub fn get_source_file(&self) -> (r: String)
        ensures
            r@ == "src/fill.rs"@,
    {
        "src/fill.rs".to_owned()
    }

    pub fn get_tool_name(&self) -> (r: String)
        ensures
            r@ == self.name@,
    {
        self.name.clone()
    }

    pub fn get_tool_description(&self) -> (r: String)
        ensures
            r@ == self.description@,
    {
        self.description.clone()
    }

    pub fn get_tool_parameters(&self) -> (r: String)
        ensures
            r@ == self.parameters@,
    {
        self.parameters.clone()
    }

    pub fn get_example_usage(&self) -> (r: String)
        ensures
            r@ == self.example_usage@,
    {
        self.example_usage.clone()
    }

    pub fn get_toolbox(&self) -> (r: String)
        ensures
            r@ == self.toolbox@,
    {
        self.toolbox.clone()
    }
}

/// Downslope flow-path distance from each cell to the nearest stream cell.
pub struct DownslopeDistanceToStream {
    pub name: String,
    pub description: String,
    pub toolbox: String,
    pub parameters: String,
    pub example_usage: String,
}

impl DownslopeDistanceToStream {
    pub fn new() -> (t: DownslopeDistanceToStream)
        ensures
            t.name@ == "DownslopeDistanceToStream"@,
            t.description@ == "Measures distance to the nearest downslope stream cell."@,
            t.toolbox@ == "Hydrological Analysis"@,
            t.parameters@ == "{\"parameters\": [{\"name\": \"Input DEM File\", \"flags\": [\"-i\", \"--dem\"], \"description\": \"Input raster DEM file.\", \"parameter_type\": {\"ExistingFile\": \"Raster\"}, \"default_value\": null, \"optional\": false}, {\"name\": \"Input Streams File\", \"flags\": [\"--streams\"], \"description\": \"Input raster streams file.\", \"parameter_type\": {\"ExistingFile\": \"Raster\"}, \"default_value\": null, \"optional\": false}, {\"name\": \"Output File\", \"flags\": [\"-o\", \"--output\"], \"description\": \"Output raster file.\", \"parameter_type\": {\"NewFile\": \"Raster\"}, \"default_value\": null, \"optional\": false}]}"@,
            t.example_usage@ == ">>.*EXE -r=DownslopeDistanceToStream -v --wd=\"*path*to*data*\" --dem='dem.tif' --streams='streams.tif' -o='output.tif'"@,
    {
        DownslopeDistanceToStream {
            name: "DownslopeDistanceToStream".to_owned(),
            description: "Measures distance to the nearest downslope stream cell.".to_owned(),
            toolbox: "Hydrological Analysis".to_owned(),
            parameters: "{\"parameters\": [{\"name\": \"Input DEM File\", \"flags\": [\"-i\", \"--dem\"], \"description\": \"Input raster DEM file.\", \"parameter_type\": {\"ExistingFile\": \"Raster\"}, \"default_value\": null, \"optional\": false}, {\"name\": \"Input Streams File\", \"flags\": [\"--streams\"], \"description\": \"Input raster streams file.\", \"parameter_type\": {\"ExistingFile\": \"Raster\"}, \"default_value\": null, \"optional\": false}, {\"name\": \"Output File\", \"flags\": [\"-o\", \"--output\"], \"description\": \"Output raster file.\", \"parameter_type\": {\"NewFile\": \"Raster\"}, \"default_value\": null, \"optional\": false}]}".to_owned(),
            example_usage: ">>.*EXE -r=DownslopeDistanceToStream -v --wd=\"*path*to*data*\" --dem='dem.tif' --streams='streams.tif' -o='output.tif'".to_owned(),
        }
    }

    pub fn get_source_file(&self) -> (r: String)
        ensures
            r@ == "src/accumulate.rs"@,
    {
        "src/accumulate.rs".to_owned()
    }

    pub fn get_tool_name(&self) -> (r: String)
        ensures
            r@ == self.name@,
    {
        self.name.clone()
    }

    pub fn get_tool_description(&self) -> (r: String)
        ensures
            r@ == self.description@,
    {
        self.description.clone()
    }

    pub fn get_tool_parameters(&self) -> (r: String)
        ensures
            r@ == self.parameters@,
    {
        self.parameters.clone()
    }

    pub fn get_example_usage(&self) -> (r: String)
        ensures
            r@ == self.example_usage@,
    {
        self.example_usage.clone()
    }

    pub fn get_toolbox(&self) -> (r: String)
        ensures
            r@ == self.toolbox@,
    {
        self.toolbox.clone()
    }
}

/// Standard-deviation filter over a moving window.
pub struct StandardDeviationFilter {
    pub name: String,
    pub description: String,
    pub toolbox: String,
    pub parameters: String,
    pub example_usage: String,
}

impl StandardDeviationFilter {
    pub fn new() -> (t: StandardDeviationFilter)
        ensures
            t.name@ == "StandardDeviationFilter"@,
            t.description@ == "Assigns each cell in the output grid the standard deviation of values in a moving window centred on each grid cell in the input raster."@,
            t.toolbox@ == "Image Processing Tools/Filters"@,
            t.parameters@ == "{\"parameters\": [{\"name\": \"Input File\", \"flags\": [\"-i\", \"--input\"], \"description\": \"Input raster file.\", \"parameter_type\": {\"ExistingFile\": \"Raster\"}, \"default_value\": null, \"optional\": false}, {\"name\": \"Output File\", \"flags\": [\"-o\", \"--output\"], \"description\": \"Output raster file.\", \"parameter_type\": {\"NewFile\": \"Raster\"}, \"default_value\": null, \"optional\": false}, {\"name\": \"Filter X-Dimension\", \"flags\": [\"--filterx\"], \"description\": \"Size of the filter kernel in the x-direction.\", \"parameter_type\": \"Integer\", \"default_value\": \"11\", \"optional\": true}, {\"name\": \"Filter Y-Dimension\", \"flags\": [\"--filtery\"], \"description\": \"Size of the filter kernel in the y-direction.\", \"parameter_type\": \"Integer\", \"default_value\": \"11\", \"optional\": true}]}"@,
            t.example_usage@ == ">>.*EXE -r=StandardDeviationFilter -v --wd=\"*path*to*data*\" -i=image.tif -o=output.tif --filter=25"@,
    {
        StandardDeviationFilter {
            name: "StandardDeviationFilter".to_owned(),
            description:
                "Assigns each cell in the output grid the standard deviation of values in a moving window centred on each grid cell in the input raster.".to_owned(),
            toolbox: "Image Processing Tools/Filters".to_owned(),
            parameters: "{\"parameters\": [{\"name\": \"Input File\", \"flags\": [\"-i\", \"--input\"], \"description\": \"Input raster file.\", \"parameter_type\": {\"ExistingFile\": \"Raster\"}, \"default_value\": null, \"optional\": false}, {\"name\": \"Output File\", \"flags\": [\"-o\", \"--output\"], \"description\": \"Output raster file.\", \"parameter_type\": {\"NewFile\": \"Raster\"}, \"default_value\": null, \"optional\": false}, {\"name\": \"Filter X-Dimension\", \"flags\": [\"--filterx\"], \"description\": \"Size of the filter kernel in the x-direction.\", \"parameter_type\": \"Integer\", \"default_value\": \"11\", \"optional\": true}, {\"name\": \"Filter Y-Dimension\", \"flags\": [\"--filtery\"], \"description\": \"Size of the filter kernel in the y-direction.\", \"parameter_type\": \"Integer\", \"default_value\": \"11\", \"optional\": true}]}".to_owned(),
            example_usage: ">>.*EXE -r=StandardDeviationFilter -v --wd=\"*path*to*data*\" -i=image.tif -o=output.tif --filter=25".to_owned(),
        }
    }

    pub fn get_source_file(&self) -> (r: String)
        ensures
            r@ == "src/tools.rs"@,
    {
        "src/tools.rs".to_owned()
    }

    pub fn get_tool_name(&self) -> (r: String)
        ensures
            r@ == self.name@,
    {
        self.name.clone()
    }

    pub fn get_tool_description(&self) -> (r: String)
        ensures
            r@ == self.description@,
    {
        self.description.clone()
    }

    pub fn get_tool_parameters(&self) -> (r: String)
        ensures
            r@ == self.parameters@,
    {
        self.parameters.clone()
    }

    pub fn get_example_usage(&self) -> (r: String)
        ensures
            r@ == self.example_usage@,
    {
        self.example_usage.clone()
    }

    pub fn get_toolbox(&self) -> (r: String)
        ensures
            r@ == self.toolbox@,
    {
        self.toolbox.clone()
    }
}

/// Interpolation of LiDAR points onto a raster grid via a triangulation.
pub struct LidarTINGridding {
    pub name: String,
    pub description: String,
    pub toolbox: String,
    pub parameters: String,
    pub example_usage: String,
}

impl LidarTINGridding {
    pub fn new() -> (t: LidarTINGridding)
        ensures
            t.name@ == "LidarTINGridding"@,
            t.description@ == "Creates a raster grid based on a Delaunay triangular irregular network (TIN) fitted to LiDAR points."@,
            t.toolbox@ == "LiDAR Tools"@,
            t.parameters@ == "{\"parameters\": [{\"name\": \"Input LiDAR File\", \"flags\": [\"-i\", \"--input\"], \"description\": \"Input LiDAR file.\", \"parameter_type\": {\"ExistingFile\": \"Lidar\"}, \"default_value\": null, \"optional\": true}, {\"name\": \"Output File\", \"flags\": [\"-o\", \"--output\"], \"description\": \"Output raster file.\", \"parameter_type\": {\"NewFile\": \"Raster\"}, \"default_value\": null, \"optional\": true}, {\"name\": \"Grid Resolution\", \"flags\": [\"--resolution\"], \"description\": \"Output raster's grid resolution.\", \"parameter_type\": \"Float\", \"default_value\": \"1.0\", \"optional\": true}]}"@,
            t.example_usage@ == ">>.*EXE -r=LidarTINGridding -v --wd=\"*path*to*data*\" -i=file.las -o=outfile.tif --resolution=2.0"@,
    {
        LidarTINGridding {
            name: "LidarTINGridding".to_owned(),
            description:
                "Creates a raster grid based on a Delaunay triangular irregular network (TIN) fitted to LiDAR points.".to_owned(),
            toolbox: "LiDAR Tools".to_owned(),
            parameters: "{\"parameters\": [{\"name\": \"Input LiDAR File\", \"flags\": [\"-i\", \"--input\"], \"description\": \"Input LiDAR file.\", \"parameter_type\": {\"ExistingFile\": \"Lidar\"}, \"default_value\": null, \"optional\": true}, {\"name\": \"Output File\", \"flags\": [\"-o\", \"--output\"], \"description\": \"Output raster file.\", \"parameter_type\": {\"NewFile\": \"Raster\"}, \"default_value\": null, \"optional\": true}, {\"name\": \"Grid Resolution\", \"flags\": [\"--resolution\"], \"description\": \"Output raster's grid resolution.\", \"parameter_type\": \"Float\", \"default_value\": \"1.0\", \"optional\": true}]}".to_owned(),
            example_usage: ">>.*EXE -r=LidarTINGridding -v --wd=\"*path*to*data*\" -i=file.las -o=outfile.tif --resolution=2.0".to_owned(),
        }
    }

    pub fn get_source_file(&self) -> (r: String)
        ensures
            r@ == "src/tools.rs"@,
    {
        "src/tools.rs".to_owned()
    }

    pub fn get_tool_name(&self) -> (r: String)
        ensures
            r@ == self.name@,
    {
        self.name.clone()
    }

    pub fn get_tool_description(&self) -> (r: String)
        ensures
            r@ == self.description@,
    {
        self.description.clone()
    }

    pub fn get_tool_parameters(&self) -> (r: String)
        ensures
            r@ == self.parameters@,
    {
        self.parameters.clone()
    }

    pub fn get_example_usage(&self) -> (r: String)
        ensures
            r@ == self.example_usage@,
    {
        self.example_usage.clone()
    }

    pub fn get_toolbox(&self) -> (r: String)
        ensures
            r@ == self.toolbox@,
    {
        self.toolbox.clone()
    }
}

/// Boolean negation of a raster treated as logical values.
pub struct Not {
    pub name: String,
    pub description: String,
    pub toolbox: String,
    pub parameters: String,
    pub example_usage: String,
}

impl Not {
    pub fn new() -> (t: Not)
        ensures
            t.name@ == "Not"@,
            t.description@ == "Performs a logical NOT operator on two Boolean raster images."@,
            t.toolbox@ == "Math and Stats Tools"@,
            t.parameters@ == "{\"parameters\": [{\"name\": \"Input File\", \"flags\": [\"-i\", \"--input1\"], \"description\": \"Input raster file.\", \"parameter_type\": {\"ExistingFile\": \"Raster\"}, \"default_value\": null, \"optional\": false}, {\"name\": \"Input File\", \"flags\": [\"--input2\"], \"description\": \"Input raster file.\", \"parameter_type\": {\"ExistingFile\": \"Raster\"}, \"default_value\": null, \"optional\": false}, {\"name\": \"Output File\", \"flags\": [\"-o\", \"--output\"], \"description\": \"Output raster file.\", \"parameter_type\": {\"NewFile\": \"Raster\"}, \"default_value\": null, \"optional\": false}]}"@,
            t.example_usage@ == ">>.*EXE -r=Not -v --wd=\"*path*to*data*\" --input1='in1.tif' --input2='in2.tif' -o=output.tif"@,
    {
        Not {
            name: "Not".to_owned(),
            description: "Performs a logical NOT operator on two Boolean raster images.".to_owned(),
            toolbox: "Math and Stats Tools".to_owned(),
            parameters: "{\"parameters\": [{\"name\": \"Input File\", \"flags\": [\"-i\", \"--input1\"], \"description\": \"Input raster file.\", \"parameter_type\": {\"ExistingFile\": \"Raster\"}, \"default_value\": null, \"optional\": false}, {\"name\": \"Input File\", \"flags\": [\"--input2\"], \"description\": \"Input raster file.\", \"parameter_type\": {\"ExistingFile\": \"Raster\"}, \"default_value\": null, \"optional\": false}, {\"name\": \"Output File\", \"flags\": [\"-o\", \"--output\"], \"description\": \"Output raster file.\", \"parameter_type\": {\"NewFile\": \"Raster\"}, \"default_value\": null, \"optional\": false}]}".to_owned(),
            example_usage: ">>.*EXE -r=Not -v --wd=\"*path*to*data*\" --input1='in1.tif' --input2='in2.tif' -o=output.tif".to_owned(),
        }
    }

    pub fn get_source_file(&self) -> (r: String)
        ensures
            r@ == "src/tools.rs"@,
    {
        "src/tools.rs".to_owned()
    }

    pub fn get_tool_name(&self) -> (r: String)
        ensures
            r@ == self.name@,
    {
        self.name.clone()
    }

    pub fn get_tool_description(&self) -> (r: String)
        ensures
            r@ == self.description@,
    {
        self.description.clone()
    }

    pub fn get_tool_parameters(&self) -> (r: String)
        ensures
            r@ == self.parameters@,
    {
        self.parameters.clone()
    }

    pub fn get_example_usage(&self) -> (r: String)
        ensures
            r@ == self.example_usage@,
    {
        self.example_usage.clone()
    }

    pub fn get_toolbox(&self) -> (r: String)
        ensures
            r@ == self.toolbox@,
    {
        self.toolbox.clone()
    }
}

/// Raises raster values to the power of a second raster or constant.
pub struct Power {
    pub name: String,
    pub description: String,
    pub toolbox: String,
    pub parameters: String,
    pub example_usage: String,
}

impl Power {
    pub fn new() -> (t: Power)
        ensures
            t.name@ == "Power"@,
            t.description@ == "Raises the values in grid cells of one rasters, or a constant value, by values in another raster or constant value."@,
            t.toolbox@ == "Math and Stats Tools"@,
            t.parameters@ == "{\"parameters\": [{\"name\": \"Input File Or Constant Value\", \"flags\": [\"--input1\"], \"description\": \"Input raster file or constant value.\", \"parameter_type\": {\"ExistingFileOrFloat\": \"Raster\"}, \"default_value\": null, \"optional\": false}, {\"name\": \"Input File Or Constant Value\", \"flags\": [\"--input2\"], \"description\": \"Input raster file or constant value.\", \"parameter_type\": {\"ExistingFileOrFloat\": \"Raster\"}, \"default_value\": null, \"optional\": false}, {\"name\": \"Output File\", \"flags\": [\"-o\", \"--output\"], \"description\": \"Output raster file.\", \"parameter_type\": {\"NewFile\": \"Raster\"}, \"default_value\": null, \"optional\": false}]}"@,
            t.example_usage@ == ">>.*EXE -r=Power -v --wd=\"*path*to*data*\" --input1='in1.tif' --input2='in2.tif' -o=output.tif"@,
    {
        Power {
            name: "Power".to_owned(),
            description:
                "Raises the values in grid cells of one rasters, or a constant value, by values in another raster or constant value.".to_owned(),
            toolbox: "Math and Stats Tools".to_owned(),
            parameters: "{\"parameters\": [{\"name\": \"Input File Or Constant Value\", \"flags\": [\"--input1\"], \"description\": \"Input raster file or constant value.\", \"parameter_type\": {\"ExistingFileOrFloat\": \"Raster\"}, \"default_value\": null, \"optional\": false}, {\"name\": \"Input File Or Constant Value\", \"flags\": [\"--input2\"], \"description\": \"Input raster file or constant value.\", \"parameter_type\": {\"ExistingFileOrFloat\": \"Raster\"}, \"default_value\": null, \"optional\": false}, {\"name\": \"Output File\", \"flags\": [\"-o\", \"--output\"], \"description\": \"Output raster file.\", \"parameter_type\": {\"NewFile\": \"Raster\"}, \"default_value\": null, \"optional\": false}]}".to_owned(),
            example_usage: ">>.*EXE -r=Power -v --wd=\"*path*to*data*\" --input1='in1.tif' --input2='in2.tif' -o=output.tif".to_owned(),
        }
    }

    pub fn get_source_file(&self) -> (r: String)
        ensures
            r@ == "src/tools.rs"@,
    {
        "src/tools.rs".to_owned()
    }

    pub fn get_tool_name(&self) -> (r: String)
        ensures
            r@ == self.name@,
    {
        self.name.clone()
    }

    pub fn get_tool_description(&self) -> (r: String)
        ensures
            r@ == self.description@,
    {
        self.description.clone()
    }

    pub fn get_tool_parameters(&self) -> (r: String)
        ensures
            r@ == self.parameters@,
    {
        self.parameters.clone()
    }

    pub fn get_example_usage(&self) -> (r: String)
        ensures
            r@ == self.example_usage@,
    {
        self.example_usage.clone()
    }

    pub fn get_toolbox(&self) -> (r: String)
        ensures
            r@ == self.toolbox@,
    {
        self.toolbox.clone()
    }
}

/// Removal of above-ground objects from a fine-resolution surface model.
pub struct RemoveOffTerrainObjects {
    pub name: String,
    pub description: String,
    pub toolbox: String,
    pub parameters: String,
    pub example_usage: String,
}

impl RemoveOffTerrainObjects {
    pub fn new() -> (t: RemoveOffTerrainObjects)
        ensures
            t.name@ == "RemoveOffTerrainObjects"@,
            t.description@ == "Removes off-terrain objects from a raster digital elevation model (DEM)."@,
            t.toolbox@ == "Geomorphometric Analysis"@,
            t.parameters@ == "{\"parameters\": [{\"name\": \"Input DEM File\", \"flags\": [\"-i\", \"--dem\"], \"description\": \"Input raster DEM file.\", \"parameter_type\": {\"ExistingFile\": \"Raster\"}, \"default_value\": null, \"optional\": false}, {\"name\": \"Output File\", \"flags\": [\"-o\", \"--output\"], \"description\": \"Output raster file.\", \"parameter_type\": {\"NewFile\": \"Raster\"}, \"default_value\": null, \"optional\": false}, {\"name\": \"Filter Dimension\", \"flags\": [\"--filter\"], \"description\": \"Filter size (cells).\", \"parameter_type\": \"Integer\", \"default_value\": \"25\", \"optional\": true}, {\"name\": \"Slope Threshold\", \"flags\": [\"--slope\"], \"description\": \"Slope threshold value.\", \"parameter_type\": \"Float\", \"default_value\": \"15.0\", \"optional\": true}]}"@,
            t.example_usage@ == ">>.*EXE -r=RemoveOffTerrainObjects -v --wd=\"*path*to*data*\" --dem=DEM.tif -o=bare_earth_DEM.tif --filter=25 --slope=10.0"@,
    {
        RemoveOffTerrainObjects {
            name: "RemoveOffTerrainObjects".to_owned(),
            description:
                "Removes off-terrain objects from a raster digital elevation model (DEM).".to_owned(),
            toolbox: "Geomorphometric Analysis".to_owned(),
            parameters: "{\"parameters\": [{\"name\": \"Input DEM File\", \"flags\": [\"-i\", \"--dem\"], \"description\": \"Input raster DEM file.\", \"parameter_type\": {\"ExistingFile\": \"Raster\"}, \"default_value\": null, \"optional\": false}, {\"name\": \"Output File\", \"flags\": [\"-o\", \"--output\"], \"description\": \"Output raster file.\", \"parameter_type\": {\"NewFile\": \"Raster\"}, \"default_value\": null, \"optional\": false}, {\"name\": \"Filter Dimension\", \"flags\": [\"--filter\"], \"description\": \"Filter size (cells).\", \"parameter_type\": \"Integer\", \"default_value\": \"25\", \"optional\": true}, {\"name\": \"Slope Threshold\", \"flags\": [\"--slope\"], \"description\": \"Slope threshold value.\", \"parameter_type\": \"Float\", \"default_value\": \"15.0\", \"optional\": true}]}".to_owned(),
            example_usage: ">>.*EXE -r=RemoveOffTerrainObjects -v --wd=\"*path*to*data*\" --dem=DEM.tif -o=bare_earth_DEM.tif --filter=25 --slope=10.0".to_owned(),
        }
    }

    pub fn get_source_file(&self) -> (r: String)
        ensures
            r@ == "src/tools.rs"@,
    {
        "src/tools.rs".to_owned()
    }

    pub fn get_tool_name(&self) -> (r: String)
        ensures
            r@ == self.name@,
    {
        self.name.clone()
    }

    pub fn get_tool_description(&self) -> (r: String)
        ensures
            r@ == self.description@,
    {
        self.description.clone()
    }

    pub fn get_tool_parameters(&self) -> (r: String)
        ensures
            r@ == self.parameters@,
    {
        self.parameters.clone()
    }

    pub fn get_example_usage(&self) -> (r: String)
        ensures
            r@ == self.example_usage@,
    {
        self.example_usage.clone()
    }

    pub fn get_toolbox(&self) -> (r: String)
        ensures
            r@ == self.toolbox@,
    {
        self.toolbox.clone()
    }
}

} // verus!
